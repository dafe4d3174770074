use ready_set_boole::adder::adder;
use ready_set_boole::grey_code::grey_code;
use ready_set_boole::multiplier::multiplier;

#[test]
fn test_add() {
    assert_eq!(adder(2, 3), 5);
    assert_eq!(adder(3, 3), 6);
    assert_eq!(adder(4, 3), 7);
    assert_eq!(adder(0, 3), 3);
    assert_eq!(adder(0, 0), 0);
}

#[test]
fn adder_wraps_around() {
    assert_eq!(adder(u32::MAX, 1), 0);
    assert_eq!(adder(u32::MAX, u32::MAX), u32::MAX - 1);
    assert_eq!(adder(0x8000_0000, 0x8000_0000), 0);
    assert_eq!(adder(123_456_789, 987_654_321), 1_111_111_110);
}

#[test]
fn test_multiply() {
    assert_eq!(multiplier(2, 3), 6);
    assert_eq!(multiplier(3, 3), 9);
    assert_eq!(multiplier(4, 3), 12);
    assert_eq!(multiplier(0, 3), 0);
}

#[test]
fn multiplier_wraps_around() {
    assert_eq!(multiplier(3, 0), 0);
    assert_eq!(multiplier(0x8000_0000, 2), 0);
    assert_eq!(multiplier(0xffff_ffff, 3), 0xffff_fffd);
    assert_eq!(multiplier(65_536, 65_537), 65_536);
}

#[test]
fn test_grey_code() {
    assert_eq!(grey_code(1), 1);
    assert_eq!(grey_code(2), 3);
    assert_eq!(grey_code(3), 2);
    assert_eq!(grey_code(4), 6);
    assert_eq!(grey_code(0), 0);
    assert_eq!(grey_code(15), 8);
    assert_eq!(grey_code(14), 9);
    assert_eq!(grey_code(16), 24);
}

#[test]
fn grey_code_neighbours_differ_in_one_bit() {
    let mut n: u32 = 0;
    while n < 1000 {
        let changed = grey_code(n) ^ grey_code(n + 1);
        assert_eq!(changed.count_ones(), 1);
        n += 1;
    }
    assert_eq!(grey_code(u32::MAX), 0x8000_0000);
}
