//! Single-bit logic: the gates and the adder circuits every numeric
//! operation is built from.

use vstd::prelude::*;

verus! {

/// A single binary logic value.
#[derive(Clone, Copy, Debug, PartialEq, Eq, Structural)]
pub enum Bit {
    Off,
    On,
}

impl PartialOrd for Bit {
    /// `Off` orders before `On`.
    fn partial_cmp(&self, other: &Bit) -> (r: Option<core::cmp::Ordering>) {
        Some(
            if *self == *other {
                core::cmp::Ordering::Equal
            } else if *self == Bit::On && *other == Bit::Off {
                core::cmp::Ordering::Greater
            } else {
                core::cmp::Ordering::Less
            },
        )
    }
}

impl vstd::std_specs::cmp::PartialOrdSpecImpl for Bit {
    open spec fn obeys_partial_cmp_spec() -> bool {
        true
    }

    open spec fn partial_cmp_spec(&self, other: &Bit) -> Option<core::cmp::Ordering> {
        Some(
            if *self == *other {
                core::cmp::Ordering::Equal
            } else if self.val() > other.val() {
                core::cmp::Ordering::Greater
            } else {
                core::cmp::Ordering::Less
            },
        )
    }
}

impl Bit {
    /// The numeric value of the bit: 0 or 1.
    pub open spec fn val(self) -> nat {
        match self {
            Bit::Off => 0,
            Bit::On => 1,
        }
    }

    /// Single-bit adder for two inputs: `(sum, carry)`.
    pub fn half_adder(b1: Bit, b2: Bit) -> (r: (Bit, Bit))
        ensures
            r.0 == (if b1 != b2 { Bit::On } else { Bit::Off }),
            r.1 == (if b1 == Bit::On && b2 == Bit::On { Bit::On } else { Bit::Off }),
            r.0.val() + 2 * r.1.val() == b1.val() + b2.val(),
    {
        (xor(b1, b2), and(b1, b2))
    }

    /// Single-bit adder for three inputs: `(sum, carry)`, two half adders
    /// whose carries are joined by `or`.
    pub fn full_adder(b1: Bit, b2: Bit, b3: Bit) -> (r: (Bit, Bit))
        ensures
            r.0.val() + 2 * r.1.val() == b1.val() + b2.val() + b3.val(),
    {
        let (sum1, carry1) = Bit::half_adder(b1, b2);
        let (sum2, carry2) = Bit::half_adder(sum1, b3);
        (sum2, or(carry1, carry2))
    }

    /// Single-bit multiplier: the product of two bits.
    pub fn multiplier(b1: Bit, b2: Bit) -> (r: Bit)
        ensures
            r.val() == b1.val() * b2.val(),
    {
        and(b1, b2)
    }
}

/// Conjunction of two bits, as a value.
pub open spec fn spec_and(b1: Bit, b2: Bit) -> Bit {
    if b1 == Bit::On && b2 == Bit::On {
        Bit::On
    } else {
        Bit::Off
    }
}

/// Logical conjunction.
#[verifier::when_used_as_spec(spec_and)]
pub fn and(b1: Bit, b2: Bit) -> (r: Bit)
    ensures
        r == spec_and(b1, b2),
{
    match (b1, b2) {
        (Bit::On, Bit::On) => Bit::On,
        _ => Bit::Off,
    }
}

/// Logical disjunction.
pub fn or(b1: Bit, b2: Bit) -> (r: Bit)
    ensures
        r == (if b1 == Bit::On || b2 == Bit::On { Bit::On } else { Bit::Off }),
{
    match (b1, b2) {
        (Bit::Off, Bit::Off) => Bit::Off,
        _ => Bit::On,
    }
}

/// Exclusive or: on when exactly one input is on.
pub fn xor(b1: Bit, b2: Bit) -> (r: Bit)
    ensures
        r == (if b1 != b2 { Bit::On } else { Bit::Off }),
{
    if b1 == b2 {
        Bit::Off
    } else {
        Bit::On
    }
}

/// Logical negation.
pub fn not(b: Bit) -> (r: Bit)
    ensures
        r != b,
{
    match b {
        Bit::Off => Bit::On,
        Bit::On => Bit::Off,
    }
}

} // verus!
