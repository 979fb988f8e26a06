use ta_reborn::{Fx, FxVec2};

#[test]
fn arithmetic() {
    let a = Fx::ratio(3, 2);
    assert_eq!(a + a, Fx::from_int(3));
    assert_eq!(a * Fx::from_int(-2), Fx::from_int(-3));
    assert_eq!(Fx::from_int(3) / Fx::from_int(2), a);
    assert_eq!(Fx::ratio(-3, 2).floor(), -2);
}

#[test]
fn length_is_exact_on_integers() {
    let v = FxVec2::new(Fx::from_int(3), Fx::from_int(-4));
    assert_eq!(v.length(), Fx::from_int(5));
}

#[test]
fn ratio_rounds_toward_zero() {
    assert_eq!(Fx::ratio(1, 5).raw(), 858_993_459);
    assert_eq!(Fx::ratio(-1, 5).raw(), -858_993_459);
    assert_eq!(Fx::ratio(1, -5).raw(), -858_993_459);
    assert_eq!(Fx::ratio(-7, -2).raw(), 15_032_385_536);
}

#[test]
fn division_of_whole_numbers_is_their_ratio() {
    assert_eq!(Fx::from_int(7) / Fx::from_int(-2), Fx::ratio(7, -2));
    assert_eq!((Fx::from_int(7) / Fx::from_int(-2)).raw(), -15_032_385_536);
    assert_eq!(Fx::from_int(-9) / Fx::from_int(4), Fx::ratio(-9, 4));
}

#[test]
fn multiplication_rounds_down_and_wraps() {
    assert_eq!(Fx::from_raw(1) * Fx::from_raw(1), Fx::zero());
    assert_eq!((Fx::from_raw(-1) * Fx::from_raw(1)).raw(), -1);
    // 2^16 * 2^16 = 2^32, whose raw value 2^64 wraps to 0.
    assert_eq!(Fx::from_int(65536) * Fx::from_int(65536), Fx::zero());
    assert_eq!(Fx::ratio(5, 2) * Fx::from_int(4), Fx::from_int(10));
}

#[test]
fn floor_is_the_largest_integer_below() {
    assert_eq!(Fx::from_raw(-1).floor(), -1);
    assert_eq!(Fx::from_raw(4_294_967_295).floor(), 0);
    assert_eq!(Fx::from_int(-7).floor(), -7);
    assert_eq!(Fx::from_raw(i64::MIN).floor(), i32::MIN);
    assert_eq!(Fx::from_raw(i64::MAX).floor(), i32::MAX);
}

#[test]
fn raw_round_trip_and_defaults() {
    assert_eq!(Fx::from_raw(-123_456_789).raw(), -123_456_789);
    assert_eq!(Fx::default(), Fx::zero());
    assert_eq!(Fx::from_int(0), Fx::zero());
    assert_eq!(FxVec2::default(), FxVec2::new(Fx::zero(), Fx::zero()));
}

#[test]
fn length_rounds_down() {
    assert_eq!(FxVec2::new(Fx::from_raw(1), Fx::zero()).length().raw(), 1);
    assert_eq!(FxVec2::new(Fx::from_raw(1), Fx::from_raw(1)).length().raw(), 1);
    assert_eq!(FxVec2::new(Fx::from_int(6), Fx::from_int(8)).length(), Fx::from_int(10));
    assert_eq!(FxVec2::new(Fx::from_int(-5), Fx::from_int(-12)).length(), Fx::from_int(13));
    // sqrt(2) = 1.41421356..., i.e. 6074000999.95 raw units.
    assert_eq!(FxVec2::new(Fx::from_int(1), Fx::from_int(1)).length().raw(), 6_074_000_999);
}

#[test]
fn vector_arithmetic() {
    let a = FxVec2::new(Fx::from_int(1), Fx::from_int(-2));
    let b = FxVec2::new(Fx::ratio(1, 2), Fx::from_int(3));
    assert_eq!(a + b, FxVec2::new(Fx::ratio(3, 2), Fx::from_int(1)));
    assert_eq!(a - b, FxVec2::new(Fx::ratio(1, 2), Fx::from_int(-5)));
    assert_eq!(a * Fx::from_int(-3), FxVec2::new(Fx::from_int(-3), Fx::from_int(6)));
}
