use toy_ac::range::Range;

#[test]
fn test_range_init() {
    let range = Range::new(32);
    assert_eq!(range.high, 0xffffffff);
    assert_eq!(range.low, 0x0);
}

#[test]
fn test_range_reduce_to_middle() {
    let mut range = Range::new(32);
    range.reduce(0x80000000, 0x7fffffff);
    assert!(!range.hob_match());
    assert!(range.in_middle());
    for _i in 0..30 {
        range.shift_sob();
        assert!(range.in_middle());
    }
    range.shift_sob();
    assert_eq!(range.high, 0xffffffff);
    assert_eq!(range.low, 0x0);
}

#[test]
fn test_range_hob_match() {
    let mut range = Range::new(63);
    range.reduce(0x0123456789abcdef, 0x0123456789abcdee);
    assert_eq!(range.high, 0x0123456789abcdef);
    assert_eq!(range.low, 0x0123456789abcdee);
    assert!(range.hob_match());

    let mut shifted_bits = 0;
    while range.hob_match() {
        shifted_bits = shifted_bits << 1;
        if range.shift_hob() {
            shifted_bits += 1;
        }
    }
    assert_eq!(shifted_bits, 0x0123456789abcdef as u64 >> 1);
}

#[test]
fn test_range_width_and_getters() {
    let mut range = Range::new(32);
    assert_eq!(range.width(), 0x100000000);
    assert_eq!(range.low(), 0);
    assert_eq!(range.high(), 0xffffffff);
    range.reduce(0x10, 0x1);
    assert_eq!(range.width(), 0x10);
}

#[test]
fn test_range_shift_hob_bits() {
    let mut range = Range::new(32);
    range.reduce(0xc0000001, 0x80000000);
    assert!(range.hob_match());
    assert!(range.shift_hob());
    assert_eq!(range.low, 0x0);
    assert_eq!(range.high, 0x80000003);
    assert!(!range.hob_match());
}
