use boole::adder;

#[test]
fn ex00_zero() {
    assert_eq!(adder(0, 0), 0);
}

#[test]
fn ex00_identity() {
    assert_eq!(adder(42, 0), 42);
    assert_eq!(adder(0, 42), 42);
}

#[test]
fn no_carry() {
    assert_eq!(adder(1, 2), 3);
}

#[test]
fn simple_carry() {
    assert_eq!(adder(3, 5), 8);
    assert_eq!(adder(4, 1), 5);
}

#[test]
fn ex00_same_operand() {
    assert_eq!(adder(7, 7), 14);
}

#[test]
fn ex00_overflow_wraps() {
    assert_eq!(adder(u32::MAX, 1), 0);
    assert_eq!(adder(u32::MAX, u32::MAX), u32::MAX.wrapping_add(u32::MAX));
}

#[test]
fn matches_native_addition_on_random_pairs() {
    let mut rng: u64 = 0x2545F4914F6CDD1D;
    let mut next_u32 = || {
        rng ^= rng << 13;
        rng ^= rng >> 7;
        rng ^= rng << 17;
        (rng & 0xFFFF_FFFF) as u32
    };

    for _ in 0..10_000 {
        let a = next_u32();
        let b = next_u32();
        assert_eq!(adder(a, b), a.wrapping_add(b));
    }
}
