use rustycalc::circuits::{
    binary_adder, binary_divider, binary_multiplier, binary_subtractor, complement, unsigned_ge,
};
use rustycalc::{ArithmeticError, Bit, Number};

fn min_number() -> Number {
    let mut ba = Number::from(Bit::Off);
    ba.set(0, Bit::On);
    ba
}

fn max_number() -> Number {
    let mut ba = Number::from(Bit::On);
    ba.set(0, Bit::Off);
    ba
}

fn decode(n: Number) -> i64 {
    n.to_int().unwrap()
}

#[test]
fn number_test_shl() {
    let one = Number::one();
    let mut two = Number::zero();
    two.set(62, Bit::On);

    let shifted = one.shl(1);

    assert_ne!(one, two);
    assert_eq!(shifted, two);
}

#[test]
fn number_test_shr() {
    let one = Number::one();
    let mut two = Number::zero();
    two.set(62, Bit::On);

    let shifted = two.shr(1);

    assert_eq!(shifted, one);
}

#[test]
fn number_test_partial_eq() {
    assert_ne!(Number::zero(), Number::one());
}

#[test]
fn number_from_int_test() {
    let zero = Number::zero();
    let one = Number::one();
    let negative_one = Number::from(Bit::On);

    assert_eq!(Number::from_int(0), zero, "0");
    assert_eq!(Number::from_int(1), one, "1");
    assert_eq!(Number::from_int(-1), negative_one, "-1");
    assert_eq!(Number::from_int(-9223372036854775808), min_number(), "min");
    assert_eq!(Number::from_int(9223372036854775807), max_number(), "max");
}

#[test]
fn number_to_int_test() {
    let zero = Number::zero();
    let one = Number::one();
    let negative_one = Number::from(Bit::On);

    assert_eq!(Number::to_int(zero), Ok(0), "0");
    assert_eq!(Number::to_int(one), Ok(1), "1");
    assert_eq!(Number::to_int(negative_one), Ok(-1), "-1");
    assert_eq!(Number::to_int(min_number()), Ok(::std::i64::MIN), "min");
    assert_eq!(Number::to_int(max_number()), Ok(::std::i64::MAX), "max");
}

#[test]
fn binary_test_shl() {
    let one = Number::one();
    let mut two = Number::zero();
    two.set(62, Bit::On);

    let shifted = one.shl(1);

    assert_ne!(one, two);
    assert_eq!(shifted, two);
}

#[test]
fn binary_test_shr() {
    let one = Number::one();
    let mut two = Number::zero();
    two.set(62, Bit::On);

    let shifted = two.shr(1);

    assert_eq!(shifted, one);
}

#[test]
fn binary_test_partial_eq() {
    assert_ne!(Number::zero(), Number::one());
}

#[test]
fn binary_from_int_test() {
    let zero = Number::zero();
    let one = Number::one();
    let negative_one = Number::from(Bit::On);

    assert_eq!(Number::from_int(0), zero, "0");
    assert_eq!(Number::from_int(1), one, "1");
    assert_eq!(Number::from_int(-1), negative_one, "-1");
    assert_eq!(Number::from_int(-9223372036854775808), min_number(), "min");
    assert_eq!(Number::from_int(9223372036854775807), max_number(), "max");
}

#[test]
fn binary_to_int_test() {
    let zero = Number::zero();
    let one = Number::one();
    let negative_one = Number::from(Bit::On);

    assert_eq!(Number::to_int(zero), Ok(0), "0");
    assert_eq!(Number::to_int(one), Ok(1), "1");
    assert_eq!(Number::to_int(negative_one), Ok(-1), "-1");
    assert_eq!(Number::to_int(min_number()), Ok(::std::i64::MIN), "min");
    assert_eq!(Number::to_int(max_number()), Ok(::std::i64::MAX), "max");
}

#[test]
fn round_trip_values() {
    for n in [0, 1, -1, 2, -2, 42, -42, 123456789, -987654321, i64::MIN, i64::MAX, i64::MIN + 1] {
        assert_eq!(Number::from_int(n).to_int(), Ok(n));
    }
}

#[test]
fn bit_layout_is_most_significant_first() {
    let five = Number::from_int(5);
    assert!(five.is_on_at(63));
    assert!(!five.is_on_at(62));
    assert!(five.is_on_at(61));
    assert_eq!(five.get(60), Bit::Off);
    assert!(!five.is_negative());
    assert!(Number::from_int(-5).is_negative());
    assert!(Number::from_int(-5).is_on_at(0));
}

#[test]
fn add_is_commutative_and_associative() {
    let a = Number::from_int(123456);
    let b = Number::from_int(-98765);
    let c = Number::from_int(i64::MAX);
    assert_eq!(a.add(b), b.add(a));
    assert_eq!(a.add(b).add(c), a.add(b.add(c)));
}

#[test]
fn add_wraps_on_overflow() {
    let r = Number::from_int(i64::MAX).add(Number::from_int(1));
    assert_eq!(r.to_int(), Ok(i64::MIN));
    let r = Number::from_int(i64::MIN).subtract(Number::from_int(1));
    assert_eq!(r.to_int(), Ok(i64::MAX));
}

#[test]
fn negate_is_involutive() {
    for n in [0, 1, -1, 7, -7, i64::MAX, i64::MIN + 1] {
        let a = Number::from_int(n);
        assert_eq!(a.negate().to_int(), Ok(-n));
        assert_eq!(a.negate().negate(), a);
    }
}

#[test]
fn negate_min_is_min() {
    let min = Number::from_int(i64::MIN);
    assert_eq!(min.negate(), min);
}

#[test]
fn multiply_examples() {
    assert_eq!(decode(Number::from_int(3).multiply(Number::from_int(5))), 15);
    assert_eq!(decode(Number::from_int(-4).multiply(Number::from_int(6))), -24);
    assert_eq!(decode(Number::from_int(-4).multiply(Number::from_int(-6))), 24);
    assert_eq!(
        decode(Number::from_int(i64::MAX).multiply(Number::from_int(2))),
        i64::MAX.wrapping_mul(2)
    );
}

#[test]
fn divide_truncates_toward_zero() {
    let d = |a: i64, b: i64| decode(Number::from_int(a).divide(Number::from_int(b)).unwrap());
    assert_eq!(d(7, 2), 3);
    assert_eq!(d(-7, 2), -3);
    assert_eq!(d(7, -2), -3);
    assert_eq!(d(-7, -2), 3);
    assert_eq!(d(i64::MIN, 1), i64::MIN);
    assert_eq!(d(i64::MIN, -1), i64::MIN);
    assert_eq!(d(i64::MIN, i64::MIN), 1);
    assert_eq!(d(5, i64::MIN), 0);
}

#[test]
fn divide_by_zero_fails() {
    assert_eq!(
        Number::from_int(7).divide(Number::zero()),
        Err(ArithmeticError::DivisionByZero)
    );
    assert_eq!(
        Number::from_int(0).divide(Number::from_int(0)),
        Err(ArithmeticError::DivisionByZero)
    );
}

#[test]
fn circuits_on_unsigned_patterns() {
    let a = Number::from_int(-1);
    let one = Number::one();
    assert_eq!(binary_adder(a, one), Number::zero());
    assert_eq!(binary_subtractor(Number::zero(), one), a);
    assert_eq!(complement(one), a);
    assert_eq!(complement(Number::zero()), Number::zero());
    assert_eq!(decode(binary_multiplier(Number::from_int(1023), Number::from_int(983298))), 1023 * 983298);
    assert_eq!(decode(binary_divider(Number::from_int(100), Number::from_int(7))), 14);
    assert!(unsigned_ge(a, one));
    assert!(unsigned_ge(one, one));
    assert!(!unsigned_ge(Number::zero(), one));
}

#[test]
fn shifts_by_counts() {
    let n = Number::from_int(0b1011);
    assert_eq!(decode(n.shl(4)), 0b1011_0000);
    assert_eq!(decode(n.shr(2)), 0b10);
    assert_eq!(n.shl(64), Number::zero());
    assert_eq!(n.shr(100), Number::zero());
    assert_eq!(decode(Number::from_int(1).shl(63)), i64::MIN);
}
