use orbital::trail::advance_index;
use orbital::trail::brightness;
use orbital::trail::Trail;

#[test]
fn trail_indices() {
    let samples: Vec<((usize, usize, usize), (usize, usize))> = vec![
        ((0, 0, 5), (0, 4)),
        ((0, 1, 5), (4, 3)),
        ((1, 0, 5), (1, 0)),
        ((1, 1, 5), (0, 4)),
        ((0, 3, 5), (2, 1)),
        ((1, 3, 5), (3, 2)),
        ((4, 3, 5), (1, 0)),
    ];
    for s in &samples {
        let (start, i, length) = (s.0 .0, s.0 .1, s.0 .2);
        let output = s.1;
        println!("{:?}", &s);
        assert_eq!(Trail::<i64>::index_pair(start, i, length), output);
    }
}

#[test]
fn indices_stay_in_range() {
    for length in 2..8usize {
        for start in 0..length {
            for i in 0..length {
                let (a, b) = Trail::<i64>::index_pair(start, i, length);
                assert!(a < length);
                assert!(b < length);
            }
        }
    }
}

#[test]
fn older_is_one_behind_newer() {
    for length in 2..8usize {
        for start in 0..length {
            for i in 0..length {
                let (a, b) = Trail::<i64>::index_pair(start, i, length);
                assert_eq!(b, (a + length - 1) % length);
            }
        }
    }
}

#[test]
fn new_trail_holds_initial_everywhere() {
    let t = Trail::new(6, (3i64, -2i64));
    assert_eq!(t.len(), 6);
    let segs = t.segments(0);
    assert_eq!(segs.len(), 5);
    for (newer, older) in segs {
        assert_eq!(newer, (3, -2));
        assert_eq!(older, (3, -2));
    }
}

#[test]
fn record_changes_one_slot() {
    let mut t = Trail::new(3, 7i64);
    t.record(1, 9);
    // write index 1: segment 0 joins slot 1 (newest) to slot 0, segment 1 joins slot 0 to slot 2
    let segs = t.segments(1);
    assert_eq!(segs, vec![(9, 7), (7, 7)]);
}

#[test]
fn segments_read_back_in_reverse_chronological_order() {
    let mut t = Trail::new(4, 0i64);
    let mut start = 0usize;
    for p in [10i64, 20, 30, 40] {
        t.record(start, p);
        start = advance_index(start, 4);
    }
    assert_eq!(start, 0);
    // newest sample is 40 in slot 3; walking back: 40-30, 30-20, 20-10
    let segs = t.segments(3);
    assert_eq!(segs, vec![(40, 30), (30, 20), (20, 10)]);
}

#[test]
fn advance_wraps_at_length() {
    assert_eq!(advance_index(0, 5), 1);
    assert_eq!(advance_index(3, 5), 4);
    assert_eq!(advance_index(4, 5), 0);
    assert_eq!(advance_index(1, 2), 0);
}

#[test]
fn rest_fills_consecutive_slots_with_same_position() {
    // a body at rest: the same position recorded for n frames lands in n
    // consecutive rotating slots, and the rest of the buffer keeps its values
    let mut t = Trail::new(5, 0i64);
    for (slot, p) in [(0usize, 1i64), (1, 2), (2, 3), (3, 4), (4, 5)] {
        t.record(slot, p);
    }
    let mut start = 3usize;
    for _frame in 0..3 {
        t.record(start, 77);
        start = advance_index(start, 5);
    }
    // slots 3, 4, 0 now hold 77; slots 1 and 2 are untouched
    let segs = t.segments(0);
    assert_eq!(segs, vec![(77, 77), (77, 77), (77, 3), (3, 2)]);
}

#[test]
fn brightness_falls_linearly_from_full() {
    assert_eq!(brightness(0, 5), (5, 5));
    assert_eq!(brightness(1, 5), (4, 5));
    assert_eq!(brightness(3, 5), (2, 5));
    assert_eq!(brightness(4, 5), (1, 5));
    let (num, den) = brightness(2, 5);
    let value = num as f32 / den as f32;
    assert!((value - (1.0 - 2.0 / 5.0)).abs() < 1e-6);
}
