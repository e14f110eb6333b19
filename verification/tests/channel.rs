use gyoll::channel::{collide, Grant, RawChannel};
use gyoll::cursor::{BegCursor, EndCursor, Interval};

fn beg(cycle: isize, offset: isize) -> BegCursor {
    BegCursor { cycle, offset }
}

fn end(cycle: isize, offset: isize) -> EndCursor {
    EndCursor { cycle, offset }
}

fn region(cycle: isize, from: isize, to: isize, high_mark: Option<isize>) -> Interval {
    Interval { beg: beg(cycle, from), end: end(cycle, to), high_mark }
}

/// Reserves `n` bytes for a producer that does not have to wait.
fn reserve(ch: &mut RawChannel, n: usize) -> Interval {
    let inc = ch.begin_map(n).expect("request accepted");
    assert_eq!(ch.poll_map(&inc), Grant::Ready(inc));
    assert!(ch.holds_write(&inc));
    inc
}

/// Reads everything that is committed past `cur`, releasing each region.
fn drain(ch: &mut RawChannel, cur: &mut EndCursor) -> Vec<Interval> {
    let mut seen = Vec::new();
    loop {
        assert!(ch.admits(cur));
        match ch.next(cur) {
            Some(interval) => {
                *cur = interval.end;
                assert!(ch.may_unreserve_read(&interval));
                ch.unreserve_read(&interval);
                seen.push(interval);
            }
            None => return seen,
        }
    }
}

#[test]
fn send_wrap_behavior() {
    let mut ch = RawChannel::new(13);
    let mut rx = ch.register();

    let reg = reserve(&mut ch, 5);
    assert_eq!(reg, region(0, 0, 5, None));
    ch.unreserve_write(&reg);

    let reg = reserve(&mut ch, 5);
    assert_eq!(reg, region(0, 5, 10, None));
    ch.unreserve_write(&reg);

    // drain so we can continue
    drain(&mut ch, &mut rx);

    let reg = reserve(&mut ch, 5);
    assert_eq!(reg, region(1, 0, 5, Some(10)));
    ch.unreserve_write(&reg);

    assert_eq!(ch.reads().high_mark, Some(10));
    assert_eq!(ch.writes().end, end(1, 5));
}

#[test]
fn single_producer_single_consumer_no_wrap() {
    let mut ch = RawChannel::new(16);
    let mut buf = vec![0u8; 16];
    let mut rx = ch.register();
    assert_eq!(rx, end(0, 0));

    let mut next_byte = 0u8;
    for _ in 0..3 {
        let reg = reserve(&mut ch, 4);
        assert_eq!(reg.len(), 4);
        for k in reg.beg.offset..reg.end.offset {
            buf[k as usize] = next_byte;
            next_byte += 1;
        }
        ch.unreserve_write(&reg);
    }

    let mut observed = Vec::new();
    for interval in drain(&mut ch, &mut rx) {
        observed.extend_from_slice(&buf[interval.beg.offset as usize..interval.end.offset as usize]);
    }
    assert_eq!(observed, (0u8..12).collect::<Vec<u8>>());

    // Everything is released and read: tails and heads meet, no high mark
    // is pending, and the receiver stands at the committed end.
    assert_eq!(ch.writes(), Interval { beg: beg(0, 12), end: end(0, 12), high_mark: None });
    assert_eq!(ch.reads(), Interval { beg: beg(0, 12), end: end(0, 12), high_mark: None });
    assert_eq!(ch.writes().len(), 0);
    assert_eq!(ch.reads().len(), 0);
    assert_eq!(rx, end(0, 12));
    assert!(ch.is_open(&rx));
    ch.close();
    assert!(!ch.is_open(&rx));
}

#[test]
fn backpressure_until_reader_drains() {
    let mut ch = RawChannel::new(13);
    let mut rx = ch.register();

    let a = reserve(&mut ch, 5);
    ch.unreserve_write(&a);
    let b = reserve(&mut ch, 5);
    ch.unreserve_write(&b);

    // The third request wraps and would overwrite what the reader at
    // (0, 0) has not read yet.
    let c = ch.begin_map(5).expect("request accepted");
    assert_eq!(c, region(1, 0, 5, Some(10)));
    assert!(ch.is_staked(&c));
    assert_eq!(ch.poll_map(&c), Grant::Wait);
    assert_eq!(ch.poll_map(&c), Grant::Wait);
    assert!(!ch.holds_write(&c));

    let seen = drain(&mut ch, &mut rx);
    assert_eq!(seen, vec![region(0, 0, 10, None)]);

    assert_eq!(ch.poll_map(&c), Grant::Ready(c));
    assert_eq!(c.beg, beg(1, 0));
    assert!(ch.holds_write(&c));
    assert_eq!(ch.writes().high_mark, Some(10));
}

#[test]
fn close_during_block() {
    let mut ch = RawChannel::new(13);
    let mut rx = ch.register();

    let a = reserve(&mut ch, 5);
    ch.unreserve_write(&a);
    let b = reserve(&mut ch, 5);
    ch.unreserve_write(&b);
    let c = ch.begin_map(5).expect("request accepted");
    assert_eq!(ch.poll_map(&c), Grant::Wait);
    assert_eq!(ch.writes().end, end(1, 5));

    ch.close();
    ch.close();
    assert!(!ch.is_accepting_writes());

    // The blocked request is given up and its bookkeeping rolled back.
    assert_eq!(ch.poll_map(&c), Grant::Refused);
    assert!(!ch.is_staked(&c));
    assert_eq!(ch.writes().end, end(0, 10));
    assert_eq!(ch.writes().high_mark, None);
    assert_eq!(ch.begin_map(1), None);

    // The receiver stays open until it has read the two committed regions.
    assert!(ch.is_open(&rx));
    let seen = drain(&mut ch, &mut rx);
    assert_eq!(seen, vec![region(0, 0, 10, None)]);
    assert!(!ch.is_open(&rx));
    assert_eq!(ch.next(&rx), None);
}

#[test]
fn two_receivers_one_producer() {
    let capacity = 4096usize;
    let mut ch = RawChannel::new(capacity);
    let mut buf = vec![0u8; capacity];
    let mut rx_a = ch.register();
    let mut rx_b = ch.register();
    let mut seen_a: Vec<u8> = Vec::new();
    let mut seen_b: Vec<u8> = Vec::new();
    let mut sent: Vec<u8> = Vec::new();

    let total = 10_000usize;
    let mut round = 0usize;
    while sent.len() < total {
        let n = std::cmp::min(17, total - sent.len());
        let inc = ch.begin_map(n).expect("request accepted");
        let mut polls = 0;
        let reg = loop {
            match ch.poll_map(&inc) {
                Grant::Ready(reg) => break reg,
                Grant::Wait => {
                    // Both receivers have to move before the writer can.
                    for interval in drain(&mut ch, &mut rx_a) {
                        seen_a.extend_from_slice(
                            &buf[interval.beg.offset as usize..interval.end.offset as usize],
                        );
                    }
                    for interval in drain(&mut ch, &mut rx_b) {
                        seen_b.extend_from_slice(
                            &buf[interval.beg.offset as usize..interval.end.offset as usize],
                        );
                    }
                    polls += 1;
                    assert!(polls < 3, "the writer made no progress");
                }
                Grant::Refused => panic!("the channel is open"),
            }
        };
        assert_eq!(reg.len() as usize, n);
        for k in reg.beg.offset..reg.end.offset {
            let byte = (sent.len() % 251) as u8;
            buf[k as usize] = byte;
            sent.push(byte);
        }
        ch.unreserve_write(&reg);
        // The first receiver reads eagerly, the second only now and then.
        for interval in drain(&mut ch, &mut rx_a) {
            seen_a.extend_from_slice(&buf[interval.beg.offset as usize..interval.end.offset as usize]);
        }
        if round % 7 == 0 {
            for interval in drain(&mut ch, &mut rx_b) {
                seen_b.extend_from_slice(
                    &buf[interval.beg.offset as usize..interval.end.offset as usize],
                );
            }
        }
        round += 1;
    }
    ch.close();
    while ch.is_open(&rx_a) {
        for interval in drain(&mut ch, &mut rx_a) {
            seen_a.extend_from_slice(&buf[interval.beg.offset as usize..interval.end.offset as usize]);
        }
    }
    while ch.is_open(&rx_b) {
        for interval in drain(&mut ch, &mut rx_b) {
            seen_b.extend_from_slice(&buf[interval.beg.offset as usize..interval.end.offset as usize]);
        }
    }
    assert_eq!(sent.len(), 10_000);
    assert_eq!(seen_a, sent);
    assert_eq!(seen_b, sent);
}

#[test]
fn request_too_large() {
    let mut ch = RawChannel::new(16);
    assert_eq!(ch.begin_map(17), None);
    assert_eq!(ch.capacity(), 16);
    assert!(ch.is_accepting_writes());
    let zero = Interval { beg: beg(0, 0), end: end(0, 0), high_mark: None };
    assert_eq!(ch.writes(), zero);
    assert_eq!(ch.reads(), zero);
    // A request of exactly the capacity is taken up.
    assert_eq!(ch.begin_map(16), Some(region(0, 0, 16, None)));
}

#[test]
fn collide_cases() {
    // Same cycle: never.
    assert!(!collide(&end(0, 9), &beg(0, 3)));
    // One cycle ahead: only past the reader's offset.
    assert!(!collide(&end(1, 3), &beg(0, 3)));
    assert!(collide(&end(1, 4), &beg(0, 3)));
    // Two cycles ahead: always.
    assert!(collide(&end(2, 0), &beg(0, 13)));
    // Behind the reader: never.
    assert!(!collide(&end(0, 9), &beg(1, 0)));
}

#[test]
fn commit_waits_for_earlier_writers() {
    let mut ch = RawChannel::new(32);
    let mut rx = ch.register();
    let first = reserve(&mut ch, 8);
    let second = reserve(&mut ch, 8);
    assert_eq!(ch.writes().beg, beg(0, 0));

    // The later writer finishes first: nothing becomes readable.
    ch.unreserve_write(&second);
    assert_eq!(ch.reads().end, end(0, 0));
    assert_eq!(ch.writes().beg, beg(0, 0));
    assert_eq!(ch.next(&rx), None);

    // The earlier writer finishes: its bytes are committed.
    ch.unreserve_write(&first);
    assert_eq!(ch.reads().end, end(0, 8));
    assert_eq!(ch.writes().beg, beg(0, 8));
    assert_eq!(drain(&mut ch, &mut rx), vec![region(0, 0, 8, None)]);

    // The next in-order release commits everything up to its own end.
    let third = reserve(&mut ch, 8);
    assert_eq!(third, region(0, 16, 24, None));
    ch.unreserve_write(&third);
    assert_eq!(ch.reads().end, end(0, 24));
    assert_eq!(drain(&mut ch, &mut rx), vec![region(0, 8, 24, None)]);
}

#[test]
fn reader_never_crosses_a_cycle_in_one_region() {
    let mut ch = RawChannel::new(13);
    let mut fast = ch.register();
    let mut slow = ch.register();

    let a = reserve(&mut ch, 10);
    ch.unreserve_write(&a);
    // The fast reader reads part of the first cycle, the slow one nothing.
    let part = ch.next(&fast).expect("committed bytes");
    assert_eq!(part, region(0, 0, 10, None));
    fast = part.end;
    ch.unreserve_read(&part);
    assert_eq!(ch.reads().beg, beg(0, 0));

    // A wrap of 5 bytes collides with the slow reader at (0, 0).
    let b = ch.begin_map(5).expect("request accepted");
    assert_eq!(ch.poll_map(&b), Grant::Wait);
    let first = ch.next(&slow).expect("committed bytes");
    assert_eq!(first, region(0, 0, 10, None));
    // While the slice is held the slow reader still pins the tail.
    assert_eq!(ch.poll_map(&b), Grant::Wait);
    slow = first.end;
    ch.unreserve_read(&first);
    assert_eq!(ch.reads().beg, beg(0, 10));
    assert_eq!(ch.poll_map(&b), Grant::Ready(b));
    ch.unreserve_write(&b);
    assert_eq!(ch.reads(), Interval { beg: beg(0, 10), end: end(1, 5), high_mark: Some(10) });

    // Both readers stand at the high mark and continue in the next cycle.
    assert_eq!(drain(&mut ch, &mut fast), vec![region(1, 0, 5, None)]);
    assert_eq!(ch.reads().high_mark, Some(10));
    assert_eq!(drain(&mut ch, &mut slow), vec![region(1, 0, 5, None)]);
    assert_eq!(ch.reads(), Interval { beg: beg(1, 5), end: end(1, 5), high_mark: None });
}

#[test]
fn reader_in_older_cycle_reads_up_to_high_mark() {
    let mut ch = RawChannel::new(13);
    let mut rx = ch.register();
    let a = reserve(&mut ch, 4);
    ch.unreserve_write(&a);
    let got = drain(&mut ch, &mut rx);
    assert_eq!(got, vec![region(0, 0, 4, None)]);
    let b = reserve(&mut ch, 6);
    ch.unreserve_write(&b);
    // 4 bytes fit below the reader at offset 4 of the cycle before.
    let c = reserve(&mut ch, 4);
    assert_eq!(c, region(1, 0, 4, Some(10)));
    ch.unreserve_write(&c);
    assert_eq!(ch.reads(), Interval { beg: beg(0, 4), end: end(1, 4), high_mark: Some(10) });
    // First the rest of the old cycle, then the new one.
    assert!(ch.admits(&rx));
    let tail = ch.next(&rx).expect("rest of the old cycle");
    assert_eq!(tail, region(0, 4, 10, None));
    rx = tail.end;
    ch.unreserve_read(&tail);
    let head = ch.next(&rx).expect("start of the new cycle");
    assert_eq!(head, region(1, 0, 4, None));
    rx = head.end;
    ch.unreserve_read(&head);
    assert_eq!(ch.next(&rx), None);
}

#[test]
fn admits_rejects_cursor_outside_reads() {
    let mut ch = RawChannel::new(16);
    let rx = ch.register();
    let a = reserve(&mut ch, 4);
    ch.unreserve_write(&a);
    assert!(ch.admits(&rx));
    assert!(ch.admits(&end(0, 4)));
    assert!(!ch.admits(&end(0, 5)));
    assert!(!ch.admits(&end(1, 0)));
    assert!(!ch.may_unreserve_read(&region(0, 0, 5, None)));
    assert!(ch.may_unreserve_read(&region(0, 0, 4, None)));
    assert!(!ch.saturated());
}

#[test]
fn empty_request_is_granted_in_place() {
    let mut ch = RawChannel::new(8);
    let a = reserve(&mut ch, 3);
    let nothing = reserve(&mut ch, 0);
    assert_eq!(nothing, region(0, 3, 3, None));
    assert_eq!(nothing.len(), 0);
    ch.unreserve_write(&nothing);
    ch.unreserve_write(&a);
    assert_eq!(ch.reads().end, end(0, 3));
}

#[test]
fn held_regions_share_no_byte() {
    let mut ch = RawChannel::new(13);
    let mut rx = ch.register();
    let a = reserve(&mut ch, 5);
    ch.unreserve_write(&a);
    assert_eq!(drain(&mut ch, &mut rx), vec![region(0, 0, 5, None)]);
    let b = reserve(&mut ch, 6);
    // The next request wraps into bytes that are read already, below the
    // reader at offset 5.
    let c = reserve(&mut ch, 4);
    assert_eq!(c, region(1, 0, 4, Some(11)));
    assert!(ch.holds_write(&b) && ch.holds_write(&c));
    assert!(c.end.offset <= b.beg.offset || b.end.offset <= c.beg.offset);
    // One more byte than the reader has freed would lie over unread bytes.
    let d = ch.begin_map(2).expect("request accepted");
    assert_eq!(d, region(1, 4, 6, None));
    assert_eq!(ch.poll_map(&d), Grant::Wait);
    assert!(!ch.holds_write(&d));
}

#[test]
fn committed_end_and_slowest_reader_never_move_backward() {
    let mut ch = RawChannel::new(16);
    let mut rx = ch.register();
    let mut last_end = ch.reads().end;
    let mut last_beg = ch.reads().beg;
    for round in 0..40usize {
        let n = 1 + (round * 5) % 7;
        let inc = match ch.begin_map(n) {
            Some(inc) => inc,
            None => panic!("request accepted"),
        };
        if ch.poll_map(&inc) == Grant::Wait {
            drain(&mut ch, &mut rx);
            assert_eq!(ch.poll_map(&inc), Grant::Ready(inc));
        }
        ch.unreserve_write(&inc);
        assert!(ch.reads().end >= last_end);
        assert!(ch.reads().beg >= last_beg);
        // The write head is at most one cycle ahead of the slowest reader.
        assert!(ch.reads().beg.cycle <= ch.writes().end.cycle);
        assert!(ch.writes().end.cycle <= ch.reads().beg.cycle + 1);
        last_end = ch.reads().end;
        if round % 3 == 0 {
            drain(&mut ch, &mut rx);
        }
        assert!(ch.reads().beg >= last_beg);
        last_beg = ch.reads().beg;
    }
    assert!(ch.writes().end.cycle > 3);
}

#[test]
fn quiescent_after_wrap() {
    let mut ch = RawChannel::new(13);
    let mut rx = ch.register();
    for _ in 0..2 {
        let w = reserve(&mut ch, 5);
        ch.unreserve_write(&w);
    }
    drain(&mut ch, &mut rx);
    let w = reserve(&mut ch, 5);
    ch.unreserve_write(&w);
    drain(&mut ch, &mut rx);
    assert_eq!(ch.writes(), Interval { beg: beg(1, 5), end: end(1, 5), high_mark: None });
    assert_eq!(ch.reads(), Interval { beg: beg(1, 5), end: end(1, 5), high_mark: None });
}

#[test]
fn write_tail_may_name_the_head_as_the_next_cycle() {
    let mut ch = RawChannel::new(13);
    let mut rx = ch.register();
    for _ in 0..2 {
        let w = reserve(&mut ch, 5);
        ch.unreserve_write(&w);
    }
    drain(&mut ch, &mut rx);
    // A region that ends at the offset of the high mark it carries.
    let w = reserve(&mut ch, 10);
    assert_eq!(w, region(1, 0, 10, Some(10)));
    ch.unreserve_write(&w);
    assert_eq!(ch.writes().end, end(1, 10));
    assert_eq!(ch.writes().beg, beg(2, 0));
}

#[test]
fn bytes_read_equal_bytes_released() {
    let mut ch = RawChannel::new(64);
    let mut rx = ch.register();
    let mut released = 0isize;
    let mut read = 0isize;
    for round in 0..200usize {
        // No request is longer than half the buffer, so every wrap fits.
        let n = (round * 13) % 29;
        let inc = ch.begin_map(n).expect("request accepted");
        if ch.poll_map(&inc) == Grant::Wait {
            for interval in drain(&mut ch, &mut rx) {
                read += interval.len();
            }
            assert_eq!(ch.poll_map(&inc), Grant::Ready(inc));
        }
        assert_eq!(inc.len() as usize, n);
        ch.unreserve_write(&inc);
        released += inc.len();
        if round % 4 == 1 {
            for interval in drain(&mut ch, &mut rx) {
                read += interval.len();
            }
        }
    }
    ch.close();
    while ch.is_open(&rx) {
        for interval in drain(&mut ch, &mut rx) {
            read += interval.len();
        }
    }
    assert_eq!(released, (0..200usize).map(|r| ((r * 13) % 29) as isize).sum::<isize>());
    assert_eq!(read, released);
}

#[test]
fn drained_reader_frees_a_wrap_that_fits() {
    let mut ch = RawChannel::new(13);
    let mut rx = ch.register();
    for _ in 0..2 {
        let w = reserve(&mut ch, 5);
        ch.unreserve_write(&w);
    }
    let inc = ch.begin_map(10).expect("request accepted");
    assert_eq!(inc, region(1, 0, 10, Some(10)));
    assert_eq!(ch.poll_map(&inc), Grant::Wait);
    drain(&mut ch, &mut rx);
    assert_eq!(ch.poll_map(&inc), Grant::Ready(inc));
}

#[test]
fn wrap_longer_than_the_cycle_before_keeps_waiting() {
    let mut ch = RawChannel::new(13);
    let mut rx = ch.register();
    for _ in 0..2 {
        let w = reserve(&mut ch, 5);
        ch.unreserve_write(&w);
    }
    drain(&mut ch, &mut rx);
    // The reader stands at (0, 10) with nothing left to read, and 12 bytes
    // reach past offset 10 of the next cycle.
    let inc = ch.begin_map(12).expect("request accepted");
    assert_eq!(inc, region(1, 0, 12, Some(10)));
    assert_eq!(ch.poll_map(&inc), Grant::Wait);
    assert_eq!(drain(&mut ch, &mut rx), vec![]);
    assert_eq!(ch.poll_map(&inc), Grant::Wait);
    // Only closing the channel ends the wait.
    ch.close();
    assert_eq!(ch.poll_map(&inc), Grant::Refused);
    assert_eq!(ch.writes().end, end(0, 10));
}

#[test]
fn late_receiver_starts_at_the_slowest_reader() {
    let mut ch = RawChannel::new(16);
    let mut first = ch.register();
    let w = reserve(&mut ch, 6);
    ch.unreserve_write(&w);
    drain(&mut ch, &mut first);
    let w = reserve(&mut ch, 4);
    ch.unreserve_write(&w);
    let mut late = ch.register();
    assert_eq!(late, end(0, 6));
    assert_eq!(drain(&mut ch, &mut late), vec![region(0, 6, 10, None)]);
    assert_eq!(drain(&mut ch, &mut first), vec![region(0, 6, 10, None)]);
}
