use rustycalc::bit::{and, not, or, xor};
use rustycalc::Bit;
use rustycalc::Bit::{Off, On};

#[test]
fn circuits_test_half_adder() {
    assert_eq!(Bit::half_adder(Off, Off), (Off, Off));
    assert_eq!(Bit::half_adder(On, Off), (On, Off));
    assert_eq!(Bit::half_adder(Off, On), (On, Off));
    assert_eq!(Bit::half_adder(On, On), (Off, On));
}

#[test]
fn circuits_test_full_adder() {
    // No sum, no carry
    assert_eq!(Bit::full_adder(Off, Off, Off), (Off, Off));

    // Sum, no carry
    assert_eq!(Bit::full_adder(On, Off, Off), (On, Off));
    assert_eq!(Bit::full_adder(Off, On, Off), (On, Off));
    assert_eq!(Bit::full_adder(Off, Off, On), (On, Off));

    // Carry, no sum
    assert_eq!(Bit::full_adder(On, On, Off), (Off, On));
    assert_eq!(Bit::full_adder(Off, On, On), (Off, On));
    assert_eq!(Bit::full_adder(On, Off, On), (Off, On));

    // Sum, carry
    assert_eq!(Bit::full_adder(On, On, On), (On, On));
}

#[test]
fn circuits_test_multiplier() {
    assert_eq!(Bit::multiplier(Off, Off), Off);
    assert_eq!(Bit::multiplier(Off, On), Off);
    assert_eq!(Bit::multiplier(On, Off), Off);
    assert_eq!(Bit::multiplier(On, On), On);
}

#[test]
fn bit_test_half_adder() {
    assert_eq!(Bit::half_adder(Off, Off), (Off, Off));
    assert_eq!(Bit::half_adder(On, Off), (On, Off));
    assert_eq!(Bit::half_adder(Off, On), (On, Off));
    assert_eq!(Bit::half_adder(On, On), (Off, On));
}

#[test]
fn bit_test_full_adder() {
    assert_eq!(Bit::full_adder(Off, Off, Off), (Off, Off));

    assert_eq!(Bit::full_adder(On, Off, Off), (On, Off));
    assert_eq!(Bit::full_adder(Off, On, Off), (On, Off));
    assert_eq!(Bit::full_adder(Off, Off, On), (On, Off));

    assert_eq!(Bit::full_adder(On, On, Off), (Off, On));
    assert_eq!(Bit::full_adder(Off, On, On), (Off, On));
    assert_eq!(Bit::full_adder(On, Off, On), (Off, On));

    assert_eq!(Bit::full_adder(On, On, On), (On, On));
}

#[test]
fn bit_test_multiplier() {
    assert_eq!(Bit::multiplier(Off, Off), Off);
    assert_eq!(Bit::multiplier(Off, On), Off);
    assert_eq!(Bit::multiplier(On, Off), Off);
    assert_eq!(Bit::multiplier(On, On), On);
}

#[test]
fn gates_truth_tables() {
    assert_eq!(and(On, On), On);
    assert_eq!(and(On, Off), Off);
    assert_eq!(and(Off, Off), Off);
    assert_eq!(or(Off, Off), Off);
    assert_eq!(or(On, Off), On);
    assert_eq!(or(On, On), On);
    assert_eq!(xor(On, On), Off);
    assert_eq!(xor(Off, On), On);
    assert_eq!(xor(Off, Off), Off);
    assert_eq!(not(On), Off);
    assert_eq!(not(Off), On);
}

#[test]
fn bits_are_ordered_off_before_on() {
    assert!(Bit::Off < Bit::On);
    assert!(Bit::On > Bit::Off);
    assert!(Bit::On >= Bit::On);
    assert_eq!(Bit::Off.partial_cmp(&Bit::Off), Some(std::cmp::Ordering::Equal));
}
