use gyoll::cursor::{BegCursor, EndCursor, Interval};

#[test]
fn cursor_order() {
    assert!(BegCursor { offset: 0, cycle: 1 } > BegCursor { offset: 100, cycle: 0 });
    assert!(EndCursor { offset: 100, cycle: 0 } < EndCursor { offset: 0, cycle: 1 });
}

#[test]
fn cursor_inc_region() {
    let c = EndCursor { cycle: 0, offset: 0 };

    // no wrap
    let inc = c.next_region(10, 20);
    assert_eq!(inc.beg, BegCursor { offset: 0, cycle: 0 });
    assert_eq!(inc.end, EndCursor { offset: 10, cycle: 0 });

    // no wrap - exact fit
    let inc = inc.end.next_region(10, 20);
    assert_eq!(inc.beg, BegCursor { offset: 10, cycle: 0 });
    assert_eq!(inc.end, EndCursor { offset: 20, cycle: 0 });

    // wrap
    let inc = inc.end.next_region(15, 20);
    assert_eq!(inc.beg, BegCursor { offset: 0, cycle: 1 });
    assert_eq!(inc.end, EndCursor { offset: 15, cycle: 1 });

    // wrap - can't fit
    let inc = inc.end.next_region(15, 20);
    assert_eq!(inc.beg, BegCursor { offset: 0, cycle: 2 });
    assert_eq!(inc.end, EndCursor { offset: 15, cycle: 2 });
}

#[test]
fn interval_len_within_and_across_cycles() {
    let within = Interval {
        beg: BegCursor { cycle: 3, offset: 4 },
        end: EndCursor { cycle: 3, offset: 11 },
        high_mark: None,
    };
    assert_eq!(within.len(), 7);
    let across = Interval {
        beg: BegCursor { cycle: 3, offset: 4 },
        end: EndCursor { cycle: 4, offset: 2 },
        high_mark: Some(10),
    };
    assert_eq!(across.len(), 8);
}

#[test]
fn cursor_conversions_normalize_at_the_high_mark() {
    let b = BegCursor { cycle: 4, offset: 0 };
    assert_eq!(b.to_end(Some(10)), EndCursor { cycle: 3, offset: 10 });
    assert_eq!(b.to_end(None), EndCursor { cycle: 4, offset: 0 });
    let e = EndCursor { cycle: 3, offset: 10 };
    assert_eq!(e.to_beg(Some(10)), BegCursor { cycle: 4, offset: 0 });
    assert_eq!(e.to_beg(Some(11)), BegCursor { cycle: 3, offset: 10 });
    assert_eq!(e.to_beg(None), BegCursor { cycle: 3, offset: 10 });
    assert_eq!(BegCursor::zero(), BegCursor { cycle: 0, offset: 0 });
    assert_eq!(EndCursor::zero(), EndCursor { cycle: 0, offset: 0 });
}

#[test]
fn cursor_is_empty_compares_offsets() {
    let b = BegCursor { cycle: 2, offset: 5 };
    assert!(b.is_empty(&EndCursor { cycle: 2, offset: 5 }));
    assert!(!b.is_empty(&EndCursor { cycle: 2, offset: 6 }));
}

#[test]
fn next_region_records_high_mark_on_wrap() {
    let c = EndCursor { cycle: 0, offset: 10 };
    let inc = c.next_region(5, 13);
    assert_eq!(
        inc,
        Interval {
            beg: BegCursor { cycle: 1, offset: 0 },
            end: EndCursor { cycle: 1, offset: 5 },
            high_mark: Some(10),
        }
    );
    let fit = c.next_region(3, 13);
    assert_eq!(
        fit,
        Interval {
            beg: BegCursor { cycle: 0, offset: 10 },
            end: EndCursor { cycle: 0, offset: 13 },
            high_mark: None,
        }
    );
}

#[test]
fn interval_order_goes_by_beginning_then_end() {
    let a = Interval {
        beg: BegCursor { cycle: 0, offset: 5 },
        end: EndCursor { cycle: 0, offset: 9 },
        high_mark: None,
    };
    let b = Interval {
        beg: BegCursor { cycle: 1, offset: 0 },
        end: EndCursor { cycle: 1, offset: 2 },
        high_mark: Some(9),
    };
    let c = Interval { end: EndCursor { cycle: 0, offset: 7 }, ..a };
    assert!(a < b);
    assert!(c < a);
    assert!(b > c);
    assert!(a <= a);
}

#[test]
fn cursor_defaults_are_zero() {
    assert_eq!(BegCursor::default(), BegCursor::zero());
    assert_eq!(EndCursor::default(), EndCursor::zero());
    assert_eq!(
        Interval::default(),
        Interval { beg: BegCursor::zero(), end: EndCursor::zero(), high_mark: None }
    );
}
