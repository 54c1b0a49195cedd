use toy_ac::range::Range;

#[test]
fn test_range_init() {
    let range = Range::new(32);
    assert_eq!(range.high(), 0xffffffff);
    assert_eq!(range.low(), 0x0);
}

#[test]
fn test_range_reduce_to_middle() {
    let mut range = Range::new(32);
    range.reduce(0x80000000, 0x7fffffff);
    assert!(!range.hob_match());
    assert!(range.in_middle());
    for _i in 0..30 {
        range.shift_sob();
        assert!(range.in_middle());
    }
    range.shift_sob();
    assert_eq!(range.high(), 0xffffffff);
    assert_eq!(range.low(), 0x0);
}

#[test]
fn test_range_hob_match() {
    let mut range = Range::new(63);
    range.reduce(0x0123456789abcdef, 0x0123456789abcdee);
    assert_eq!(range.high(), 0x0123456789abcdef);
    assert_eq!(range.low(), 0x0123456789abcdee);
    assert!(range.hob_match());

    let mut shifted_bits = 0;
    while range.hob_match() {
        shifted_bits = shifted_bits << 1;
        if range.shift_hob() {
            shifted_bits += 1;
        }
    }
    assert_eq!(shifted_bits, 0x0123456789abcdef as u64 >> 1);
}

#[test]
fn range_small_width_marks() {
    let range = Range::new(2);
    assert_eq!(range.high(), 3);
    assert_eq!(range.low(), 0);
    assert_eq!(range.width(), 4);
    assert!(!range.hob_match());
    assert!(!range.in_middle());
}

#[test]
fn range_shift_hob_doubles_width() {
    let mut range = Range::new(8);
    range.reduce(0xd0, 0xc8);
    assert_eq!(range.width(), 9);
    assert!(range.hob_match());
    assert!(range.shift_hob());
    assert_eq!(range.low(), 0x90);
    assert_eq!(range.high(), 0xa1);
    assert_eq!(range.width(), 18);
    assert!(range.shift_hob());
    assert_eq!(range.low(), 0x20);
    assert_eq!(range.high(), 0x43);
    assert_eq!(range.width(), 36);
    assert!(range.hob_match());
}

#[test]
fn range_shift_sob_keeps_high_order_bits() {
    let mut range = Range::new(8);
    range.reduce(0x90, 0x70);
    assert!(range.in_middle());
    range.shift_sob();
    assert_eq!(range.low(), 0x60);
    assert_eq!(range.high(), 0xa1);
    assert_eq!(range.width(), 0x42);
    assert!(range.in_middle());
    range.shift_sob();
    assert_eq!(range.low(), 0x40);
    assert_eq!(range.high(), 0xc3);
    assert!(!range.in_middle());
}

#[test]
fn range_shift_sob_with_both_bounds_below_half() {
    let mut range = Range::new(32);
    range.reduce(0x40000000, 0x40000000);
    assert!(range.hob_match());
    assert!(range.in_middle());
    range.shift_sob();
    assert_eq!(range.low(), 0x0);
    assert_eq!(range.high(), 0x80000001);
}
