//! A producer's own state: the region it is waiting for.

use crate::channel::{Grant, RawChannel};
use crate::cursor::Interval;
use crate::model::ChannelView;
use vstd::prelude::*;

verus! {

/// One producer of a channel.
///
/// Mapping a region takes one call of [`Sender::map`] when there is space,
/// and more when there is not: as long as the answer is [`Grant::Wait`], the
/// producer waits for a reader to move on or for the channel to be closed,
/// and calls again.
#[derive(Debug)]
pub struct Sender {
    /// The region staked out for a request that is still waiting.
    staked: Option<Interval>,
}

impl Sender {
    /// The region staked out for a request that is still waiting.
    pub closed spec fn staked(&self) -> Option<Interval> {
        self.staked
    }

    /// Whether the producer may call `map` for `amount` bytes on a channel
    /// in state `ch`: the region it waits for is outstanding there, or, if
    /// it waits for none and the request would be taken up, the write head
    /// can still open another cycle.
    pub open spec fn may_map(&self, ch: ChannelView, amount: int) -> bool {
        match self.staked() {
            Some(inc) => ch.outstanding_writes.contains(inc),
            None => ch.accepts(amount) ==> ch.can_wrap(),
        }
    }

    /// The state that a call of `map` decides on, and the region it decides
    /// about: that of the waiting request if there is one, else the one
    /// staked out for a new request of `amount` bytes, if that is taken up.
    pub open spec fn turn(&self, ch: ChannelView, amount: int) -> (ChannelView, Option<Interval>) {
        match self.staked() {
            Some(inc) => (ch, Some(inc)),
            None => if ch.accepts(amount) {
                (ch.stake(amount), Some(ch.claim(amount)))
            } else {
                (ch, None)
            },
        }
    }

    /// A producer that waits for nothing.
    pub fn new() -> (r: Self)
        ensures
            r.staked().is_none(),
    {
        Sender { staked: None }
    }

    /// Whether a request of the producer is still waiting.
    pub fn is_waiting(&self) -> (r: bool)
        ensures
            r == self.staked().is_some(),
    {
        self.staked.is_some()
    }

    /// Whether the producer may call `map` for `nbytes` bytes on `ch`.
    pub fn can_map(&self, ch: &RawChannel, nbytes: usize) -> (r: bool)
        ensures
            r == self.may_map(ch@, nbytes as int),
    {
        match &self.staked {
            Some(inc) => ch.is_staked(inc),
            None => nbytes > ch.capacity() || !ch.is_accepting_writes() || ch.writes().end.cycle
                < isize::MAX - 1,
        }
    }

    /// Reserves a writable region of `nbytes` bytes, or says why not yet.
    ///
    /// A new request is refused if `nbytes` exceeds the capacity or the
    /// channel is closed. Otherwise its region is staked out. Then, for a
    /// new request as for one that has waited: while the channel is open
    /// and the region collides with the slowest reader, the answer is to
    /// wait, and the region stays staked out. If the channel is closed by
    /// now, the region is taken back and the request refused. Otherwise the
    /// region is granted: its bytes are the producer's until it is
    /// released. While a request waits, `nbytes` is not looked at.
    pub fn map(&mut self, ch: &mut RawChannel, nbytes: usize) -> (r: Grant)
        requires
            old(ch).wf(),
            old(self).may_map(old(ch)@, nbytes as int),
        ensures
            final(ch).wf(),
            match old(self).turn(old(ch)@, nbytes as int) {
                (mid, Some(inc)) => if mid.must_wait(inc) {
                    &&& r == Grant::Wait
                    &&& final(ch)@ == mid
                    &&& final(self).staked() == Some(inc)
                } else if !mid.open {
                    &&& r == Grant::Refused
                    &&& final(ch)@ == mid.abandon(inc)
                    &&& final(self).staked().is_none()
                } else {
                    &&& r == Grant::Ready(inc)
                    &&& final(ch)@ == mid.grant(inc)
                    &&& final(ch)@.granted(inc)
                    &&& final(self).staked().is_none()
                },
                (mid, None) => {
                    &&& r == Grant::Refused
                    &&& final(ch)@ == old(ch)@
                    &&& final(self).staked().is_none()
                },
            },
            final(self).staked() matches Some(inc) ==> final(ch)@.outstanding_writes.contains(inc),
            old(self).staked().is_none() ==> (r matches Grant::Ready(inc) ==> inc.spec_len()
                == nbytes),
    {
        let inc = match self.staked {
            Some(inc) => inc,
            None => match ch.begin_map(nbytes) {
                Some(inc) => inc,
                None => {
                    return Grant::Refused;
                },
            },
        };
        let r = ch.poll_map(&inc);
        self.staked = match r {
            Grant::Wait => Some(inc),
            _ => None,
        };
        r
    }

    /// Releases the writable region `interval` that the producer was
    /// granted, and commits what is complete.
    pub fn unreserve(&self, ch: &mut RawChannel, interval: &Interval)
        requires
            old(ch).wf(),
            old(ch)@.granted(*interval),
        ensures
            final(ch).wf(),
            final(ch)@ == old(ch)@.unreserve_write(*interval),
    {
        ch.unreserve_write(interval);
    }
}

} // verus!
