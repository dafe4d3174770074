use ready_set_boole::curve::{deinterleave, interleave};

// The code of a point as a number between 0 and 1.
fn map(x: u16, y: u16) -> f64 {
    interleave(x, y) as f64 / u32::MAX as f64
}

// The point of a number between 0 and 1.
fn reverse_map(value: f64) -> (u16, u16) {
    deinterleave((value * u32::MAX as f64).round() as u32)
}

#[test]
fn interleave_puts_the_first_coordinate_at_the_even_places() {
    assert_eq!(interleave(0, 0), 0);
    assert_eq!(interleave(1, 0), 1);
    assert_eq!(interleave(0, 1), 2);
    assert_eq!(interleave(2, 0), 4);
    assert_eq!(interleave(3, 3), 15);
    assert_eq!(interleave(0xffff, 0), 0x5555_5555);
    assert_eq!(interleave(0, 0xffff), 0xaaaa_aaaa);
    assert_eq!(interleave(0xffff, 0xffff), 0xffff_ffff);
    assert_eq!(interleave(0b1010, 0b0110), 0b0110_1100);
}

#[test]
fn deinterleave_finds_the_point_again() {
    assert_eq!(deinterleave(0), (0, 0));
    assert_eq!(deinterleave(1), (1, 0));
    assert_eq!(deinterleave(2), (0, 1));
    assert_eq!(deinterleave(4), (2, 0));
    assert_eq!(deinterleave(0xffff_ffff), (65535, 65535));
    let points: Vec<(u16, u16)> = vec![
        (0, 0),
        (1, 0),
        (0, 1),
        (1, 1),
        (65535, 0),
        (0, 65535),
        (65535, 65535),
        (12345, 6789),
        (32768, 32768),
    ];
    for (x, y) in points {
        assert_eq!(deinterleave(interleave(x, y)), (x, y));
    }
    let codes: Vec<u32> = vec![0, 1, 2, 3, 0x8000_0000, 0x1234_5678, 0xdead_beef, u32::MAX];
    for code in codes {
        let (x, y) = deinterleave(code);
        assert_eq!(interleave(x, y), code);
    }
}

#[test]
fn the_curve_stays_between_zero_and_one() {
    let vals: Vec<f64> = vec![
        map(0, 0),
        map(65535, 0),
        map(0, 65535),
        map(65535, 65535),
        map(32768, 32768),
        map(1, 0),
    ];
    for v in vals {
        assert!(v >= 0.0 && v <= 1.0);
    }
    assert_eq!(map(0, 0), 0.0);
    assert!((map(65535, 65535) - 1.0).abs() < 1e-9);
    assert!(map(0, 0) < map(32767, 32767));
    assert!(map(32767, 32767) < map(65535, 65535));
    assert!(map(12345, 6789) != map(12345, 6790));
    assert_eq!(reverse_map(0.0), (0, 0));
    assert_eq!(reverse_map(1.0 / u32::MAX as f64), (1, 0));
    assert_eq!(reverse_map(2.0 / u32::MAX as f64), (0, 1));
    assert_eq!(reverse_map(4.0 / u32::MAX as f64), (2, 0));
    assert_eq!(reverse_map(1.0), (65535, 65535));
    assert_eq!(reverse_map(map(12345, 6789)), (12345, 6789));
}

#[test]
fn test_map_range_bounds() {
    let vals: Vec<f64> = vec![
        map(0, 0),
        map(65535, 0),
        map(0, 65535),
        map(65535, 65535),
        map(32768, 32768),
        map(1, 0),
    ];
    for v in vals {
        assert!(v >= 0.0 && v <= 1.0, "Value {} is out of range [0,1]", v);
    }
}

#[test]
fn test_map_uniqueness() {
    let a: f64 = map(12345, 6789);
    let b: f64 = map(12345, 6790);
    let c: f64 = map(12346, 6789);
    assert!(a != b, "map(x, y) should be unique: a == b");
    assert!(a != c, "map(x, y) should be unique: a == c");
    assert!(b != c, "map(x, y) should be unique: b == c");
}

#[test]
fn test_map_order_behavior() {
    let low: f64 = map(0, 0);
    let mid: f64 = map(32767, 32767);
    let high: f64 = map(65535, 65535);
    assert!(low < mid, "Expected low < mid");
    assert!(mid < high, "Expected mid < high");
}

#[test]
fn test_map_consistency() {
    let a = map(10000, 20000);
    let b = map(10000, 20000);
    assert_eq!(a, b, "Same input should yield same output");
}

#[test]
fn test_map_known_values() {
    let corner = map(0, 0);
    assert_eq!(corner, 0.0);

    let max = map(65535, 65535);
    assert!((max - 1.0).abs() < 1e-9, "Expected max value to be ~1.0");
}

#[test]
fn test_reverse_map_zero() {
    let val: f64 = 0.0;
    assert_eq!(reverse_map(val), (0, 0));
}

#[test]
fn test_reverse_map_one() {
    let val: f64 = 1.0 / u32::MAX as f64;
    assert_eq!(reverse_map(val), (1, 0));
}

#[test]
fn test_reverse_map_two() {
    let val: f64 = 2.0 / u32::MAX as f64;
    assert_eq!(reverse_map(val), (0, 1));
}

#[test]
fn test_reverse_map_four() {
    let val: f64 = 4.0 / u32::MAX as f64;
    let result: (u16, u16) = reverse_map(val);
    assert_eq!(result, (2, 0));
}

#[test]
fn test_reverse_map_max() {
    let val: f64 = 1.0;
    assert_eq!(reverse_map(val), (65535, 65535));
}

#[test]
fn test_map_reverse_map_bijection() {
    let test_cases: Vec<(u16, u16)> = vec![
        (0, 0),
        (1, 0),
        (0, 1),
        (1, 1),
        (65535, 0),
        (0, 65535),
        (65535, 65535),
        (12345, 6789),
        (32768, 32768),
    ];

    for (x, y) in test_cases {
        let mapped: f64 = map(x, y);
        let (reverse_mapped_x, reverse_mapped_y) = reverse_map(mapped);
        assert_eq!(
            (x, y),
            (reverse_mapped_x, reverse_mapped_y),
            "Failed for input ({}, {}): mapped to {}, reverse mapped to ({}, {})",
            x,
            y,
            mapped,
            reverse_mapped_x,
            reverse_mapped_y
        );
    }
}
