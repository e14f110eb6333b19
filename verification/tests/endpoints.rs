use gyoll::channel::{Grant, RawChannel};
use gyoll::cursor::{BegCursor, EndCursor, Interval};
use gyoll::receiver::Receiver;
use gyoll::sender::Sender;

fn region(cycle: isize, from: isize, to: isize, high_mark: Option<isize>) -> Interval {
    Interval {
        beg: BegCursor { cycle, offset: from },
        end: EndCursor { cycle, offset: to },
        high_mark,
    }
}

#[test]
fn receiver_advances_to_the_end_of_each_region() {
    let mut ch = RawChannel::new(16);
    let mut tx = Sender::new();
    let mut rx = Receiver::new(&mut ch);
    assert_eq!(rx.cur(), EndCursor { cycle: 0, offset: 0 });
    assert!(rx.is_open(&ch));
    assert_eq!(rx.next(&mut ch), None);
    assert_eq!(rx.cur(), EndCursor { cycle: 0, offset: 0 });

    let w = match tx.map(&mut ch, 6) {
        Grant::Ready(w) => w,
        other => panic!("not granted: {:?}", other),
    };
    tx.unreserve(&mut ch, &w);

    assert!(rx.is_admitted(&ch));
    let r = rx.next(&mut ch).expect("committed bytes");
    assert_eq!(r, region(0, 0, 6, None));
    assert_eq!(rx.cur(), EndCursor { cycle: 0, offset: 6 });
    rx.unreserve(&mut ch, &r);
    assert_eq!(rx.cur(), EndCursor { cycle: 0, offset: 6 });
    assert_eq!(ch.reads().beg, BegCursor { cycle: 0, offset: 6 });

    ch.close();
    assert!(!rx.is_open(&ch));
}

#[test]
fn sender_waits_and_is_granted_after_the_reader_moved() {
    let mut ch = RawChannel::new(13);
    let mut tx = Sender::new();
    let mut rx = Receiver::new(&mut ch);
    for expected in [region(0, 0, 5, None), region(0, 5, 10, None)] {
        assert!(tx.can_map(&ch, 5));
        assert_eq!(tx.map(&mut ch, 5), Grant::Ready(expected));
        assert!(!tx.is_waiting());
        tx.unreserve(&mut ch, &expected);
    }
    assert_eq!(tx.map(&mut ch, 5), Grant::Wait);
    assert!(tx.is_waiting());
    assert_eq!(ch.writes().end, EndCursor { cycle: 1, offset: 5 });
    // Asking again neither stakes out another region nor grants this one.
    assert!(tx.can_map(&ch, 5));
    assert_eq!(tx.map(&mut ch, 5), Grant::Wait);
    assert_eq!(ch.writes().end, EndCursor { cycle: 1, offset: 5 });

    while let Some(r) = rx.next(&mut ch) {
        rx.unreserve(&mut ch, &r);
    }
    assert_eq!(tx.map(&mut ch, 5), Grant::Ready(region(1, 0, 5, Some(10))));
    assert!(!tx.is_waiting());
}

#[test]
fn sender_is_refused_when_closed_while_waiting() {
    let mut ch = RawChannel::new(13);
    let mut tx = Sender::new();
    let _rx = Receiver::new(&mut ch);
    for _ in 0..2 {
        match tx.map(&mut ch, 5) {
            Grant::Ready(w) => tx.unreserve(&mut ch, &w),
            other => panic!("not granted: {:?}", other),
        }
    }
    assert_eq!(tx.map(&mut ch, 5), Grant::Wait);
    ch.close();
    assert_eq!(tx.map(&mut ch, 5), Grant::Refused);
    assert!(!tx.is_waiting());
    assert_eq!(ch.writes().end, EndCursor { cycle: 0, offset: 10 });
    // Nothing is granted after close.
    assert_eq!(tx.map(&mut ch, 1), Grant::Refused);
    assert!(!tx.is_waiting());
}

#[test]
fn sender_is_refused_more_than_the_capacity() {
    let mut ch = RawChannel::new(16);
    let mut tx = Sender::new();
    assert_eq!(tx.map(&mut ch, 17), Grant::Refused);
    assert!(!tx.is_waiting());
    assert_eq!(ch.writes().end, EndCursor { cycle: 0, offset: 0 });
    assert_eq!(tx.map(&mut ch, 16), Grant::Ready(region(0, 0, 16, None)));
}
