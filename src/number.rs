//! A 64-bit two's-complement integer held as 64 bits, most significant
//! first.

use vstd::prelude::*;
use vstd::arithmetic::power2::*;
use crate::bit::Bit;
use crate::circuits::{
    binary_adder, binary_divider, binary_multiplier, binary_subtractor, complement, unsigned_ge,
};
use crate::model::{
    abs, div_trunc, lemma_wrap_congruent, lemma_wrap_signed, wrap,
    bits_val, half_modulus, lemma_bits_val_bound, lemma_bits_val_div_mod,
    lemma_bits_val_leading_zeros, lemma_bits_val_push, lemma_bits_val_split,
    lemma_bits_val_trailing_zeros, lemma_bits_val_zeros, lemma_pow2_64, lemma_suffix_unfold,
    modulus, signed,
};

verus! {

/// A 64-bit integer as a big-endian sequence of bits: index 0 is the sign
/// bit, index 63 the least significant bit.
#[derive(Clone, Copy, Debug, Eq)]
pub struct Number(pub [Bit; 64]);

impl PartialEq for Number {
    /// Bit-by-bit comparison.
    fn eq(&self, other: &Number) -> (r: bool) {
        let mut i: usize = 0;
        while i < 64
            invariant
                i <= 64,
                forall|j: int| 0 <= j < i ==> self@[j] == other@[j],
            decreases 64 - i,
        {
            if self.0[i] != other.0[i] {
                return false;
            }
            i += 1;
        }
        proof {
            assert(self@ =~= other@);
        }
        true
    }
}

impl vstd::std_specs::cmp::PartialEqSpecImpl for Number {
    open spec fn obeys_eq_spec() -> bool {
        true
    }

    open spec fn eq_spec(&self, other: &Number) -> bool {
        self@ == other@
    }
}

/// An arithmetic operation that has no result.
#[derive(Clone, Copy, Debug, PartialEq, Eq)]
pub enum ArithmeticError {
    /// The divisor was zero.
    DivisionByZero,
}

/// Decoding a `Number` back to a native integer failed. A `Number` always
/// holds exactly 64 bits, so decoding never fails.
#[derive(Clone, Copy, Debug, PartialEq, Eq)]
pub struct DecodeError;

impl View for Number {
    type V = Seq<Bit>;

    open spec fn view(&self) -> Seq<Bit> {
        self.0@
    }
}

impl Number {
    /// The bits read as an unsigned integer.
    pub open spec fn uval(self) -> int {
        bits_val(self@) as int
    }

    /// The two's-complement integer the bits stand for.
    pub open spec fn value(self) -> int {
        signed(self.uval())
    }

    /// Create a Number with every bit set to `b`.
    pub fn from(b: Bit) -> (r: Number)
        ensures
            forall|i: int| 0 <= i < 64 ==> r@[i] == b,
    {
        Number([b; 64])
    }

    /// Create a Number representing 0.
    pub fn zero() -> (r: Number)
        ensures
            forall|i: int| 0 <= i < 64 ==> r@[i] == Bit::Off,
            r.uval() == 0,
            r.value() == 0,
    {
        let r = Number::from(Bit::Off);
        proof {
            lemma_bits_val_zeros(r@);
        }
        r
    }

    /// Create a Number representing 1.
    pub fn one() -> (r: Number)
        ensures
            forall|i: int| 0 <= i < 63 ==> r@[i] == Bit::Off,
            r@[63] == Bit::On,
            r.uval() == 1,
            r.value() == 1,
    {
        let mut n = Number::zero();
        n.set(63, Bit::On);
        proof {
            lemma_bits_val_split(n@, 63);
            lemma_bits_val_zeros(n@.subrange(0, 63));
            lemma_suffix_unfold(n@, 63);
            assert(n@.subrange(64, 64) =~= Seq::<Bit>::empty());
            lemma2_to64();
        }
        n
    }

    /// The Number standing for the integer `n`; for `n` in the range of a
    /// 64-bit signed integer there is exactly one.
    pub open spec fn encoding(n: int) -> Number {
        choose|x: Number| x.value() == n
    }

    /// Create a Number holding the two's-complement encoding of `n`.
    pub fn from_int(n: i64) -> (r: Number)
        ensures
            r.value() == n,
            r == Number::encoding(n as int),
    {
        let ghost u0: int = if n >= 0 { n as int } else { n + modulus() };
        let mut u: u64 = if n >= 0 {
            n as u64
        } else {
            ((n + i64::MAX) + 1) as u64 + 0x8000_0000_0000_0000u64
        };
        let mut r = Number::zero();
        let mut i: usize = 64;
        proof {
            assert(r@.subrange(64, 64) =~= Seq::<Bit>::empty());
            lemma2_to64();
            assert(u == u0);
            assert(bits_val(r@.subrange(64, 64)) == 0);
            assert(pow2((64 - i) as nat) == 1);
            assert(u * pow2((64 - i) as nat) == u);
        }
        while i > 0
            invariant
                i <= 64,
                bits_val(r@.subrange(i as int, 64)) + u * pow2((64 - i) as nat) == u0,
            decreases i,
        {
            i -= 1;
            let b = if u % 2 == 1 {
                Bit::On
            } else {
                Bit::Off
            };
            let ghost prev = r;
            r.set(i, b);
            proof {
                assert(r@.subrange(i + 1, 64) =~= prev@.subrange(i + 1, 64));
                lemma_suffix_unfold(r@, i as int);
                lemma_pow2_unfold((64 - i) as nat);
                let p = pow2((63 - i) as nat);
                let q = (u / 2) as int;
                assert(u == 2 * q + b.val());
                assert((2 * q + b.val()) * p == b.val() * p + q * (2 * p)) by (nonlinear_arith);
            }
            u = u / 2;
        }
        proof {
            assert(r@.subrange(0, 64) =~= r@);
            lemma_pow2_64();
            lemma_bits_val_bound(r@);
            assert(u == 0) by (nonlinear_arith)
                requires
                    bits_val(r@) + u * modulus() == u0,
                    u0 < modulus(),
                    bits_val(r@) >= 0,
                    u >= 0,
            ;
            assert(r.value() == n);
            let c = Number::encoding(n as int);
            crate::laws::lemma_value_determines_bits(r, c);
        }
        r
    }

    /// The integer the bits stand for, as a native integer.
    pub(crate) fn decode(&self) -> (r: i64)
        ensures
            r == self.value(),
    {
        let mut acc: i64 = 0;
        let mut i: usize = 1;
        proof {
            assert(self@.subrange(1, 1) =~= Seq::<Bit>::empty());
        }
        while i < 64
            invariant
                1 <= i <= 64,
                acc == bits_val(self@.subrange(1, i as int)),
            decreases 64 - i,
        {
            proof {
                lemma_bits_val_bound(self@.subrange(1, i as int));
                lemma2_to64();
                lemma2_to64_rest();
                if i < 63 {
                    lemma_pow2_strictly_increases((i - 1) as nat, 62);
                }
                assert(self@.subrange(1, i + 1) =~= self@.subrange(1, i as int).push(self@[i as int]));
                lemma_bits_val_push(self@.subrange(1, i as int), self@[i as int]);
            }
            let b: i64 = if self.0[i] == Bit::On {
                1
            } else {
                0
            };
            acc = 2 * acc + b;
            i += 1;
        }
        proof {
            lemma_sign_bit(*self);
            lemma_pow2_64();
            assert(self@.subrange(1, 64) =~= self@.drop_first());
            assert(self.uval() == self@[0].val() * pow2(63) + bits_val(self@.drop_first()));
        }
        if self.0[0] == Bit::On {
            acc + i64::MIN
        } else {
            acc
        }
    }

    /// Convert the Number back to a native integer. Decoding 64 bits always
    /// succeeds.
    pub fn to_int(self) -> (r: Result<i64, DecodeError>)
        ensures
            r matches Ok(v) && v == self.value(),
    {
        Ok(self.decode())
    }

    /// Returns the bit at position `i`.
    pub fn get(&self, i: usize) -> (r: Bit)
        requires
            i < 64,
        ensures
            r == self@[i as int],
    {
        self.0[i]
    }

    /// Sets the bit at position `i`.
    pub fn set(&mut self, i: usize, b: Bit)
        requires
            i < 64,
        ensures
            final(self)@ == old(self)@.update(i as int, b),
    {
        self.0[i] = b;
    }

    /// Returns whether the bit at position `i` is on.
    pub fn is_on_at(&self, i: usize) -> (r: bool)
        requires
            i < 64,
        ensures
            r == (self@[i as int] == Bit::On),
    {
        self.0[i] == Bit::On
    }

    /// Returns whether the Number represents a negative integer.
    pub fn is_negative(&self) -> (r: bool)
        ensures
            r == (self@[0] == Bit::On),
            r == (self.value() < 0),
    {
        proof {
            lemma_sign_bit(*self);
        }
        self.is_on_at(0)
    }
}

impl Number {
    /// Logical shift toward the sign bit by `n` positions: bits moving past
    /// index 0 are dropped and zeros fill in from the least significant end.
    pub fn shl(&self, n: usize) -> (r: Number)
        ensures
            forall|i: int|
                0 <= i < 64 ==> r@[i] == (if i + n < 64 {
                    self@[i + n]
                } else {
                    Bit::Off
                }),
            r.uval() == (self.uval() * pow2(n as nat)) % modulus(),
    {
        let mut shifted = Number::zero();
        let mut i: usize = 0;
        while i < 64
            invariant
                i <= 64,
                forall|j: int|
                    0 <= j < 64 ==> shifted@[j] == (if j < i && j + n < 64 {
                        self@[j + n]
                    } else {
                        Bit::Off
                    }),
            decreases 64 - i,
        {
            if n < 64 - i {
                shifted.set(i, self.get(i + n));
            }
            i += 1;
        }
        proof {
            lemma_shl_value(*self, shifted, n as nat);
        }
        shifted
    }

    /// Logical shift toward the least significant end by `n` positions:
    /// bits moving past index 63 are dropped and zeros fill in from the sign
    /// bit.
    pub fn shr(&self, n: usize) -> (r: Number)
        ensures
            forall|i: int|
                0 <= i < 64 ==> r@[i] == (if i >= n {
                    self@[i - n]
                } else {
                    Bit::Off
                }),
            r.uval() == self.uval() / (pow2(n as nat) as int),
    {
        let mut shifted = Number::zero();
        let mut i: usize = 0;
        while i < 64
            invariant
                i <= 64,
                forall|j: int|
                    0 <= j < 64 ==> shifted@[j] == (if j < i && j >= n {
                        self@[j - n]
                    } else {
                        Bit::Off
                    }),
            decreases 64 - i,
        {
            if i >= n {
                shifted.set(i, self.get(i - n));
            }
            i += 1;
        }
        proof {
            lemma_shr_value(*self, shifted, n as nat);
        }
        shifted
    }
}

impl Number {
    /// Two's-complement negation: flip every bit and add one. The most
    /// negative value is its own negation.
    pub fn negate(self) -> (r: Number)
        ensures
            r.value() == wrap(-self.value()),
    {
        let r = complement(self);
        proof {
            let k = lemma_value_uval(self);
            lemma_wrap_congruent(modulus() - self.uval(), -self.value(), 1 - k);
        }
        r
    }

    /// Sum, wrapping modulo 2^64.
    pub fn add(self, other: Number) -> (r: Number)
        ensures
            r.value() == wrap(self.value() + other.value()),
    {
        let r = binary_adder(self, other);
        proof {
            let k1 = lemma_value_uval(self);
            let k2 = lemma_value_uval(other);
            lemma_wrap_congruent(
                self.uval() + other.uval(),
                self.value() + other.value(),
                k1 + k2,
            );
        }
        r
    }

    /// Difference: `self` plus the negation of `other`, wrapping modulo 2^64.
    pub fn subtract(self, other: Number) -> (r: Number)
        ensures
            r.value() == wrap(self.value() - other.value()),
    {
        let r = binary_subtractor(self, other);
        proof {
            let k1 = lemma_value_uval(self);
            let k2 = lemma_value_uval(other);
            lemma_wrap_congruent(
                self.uval() - other.uval(),
                self.value() - other.value(),
                k1 - k2,
            );
        }
        r
    }

    /// Product by shift-and-add, wrapping modulo 2^64.
    pub fn multiply(self, other: Number) -> (r: Number)
        ensures
            r.value() == wrap(self.value() * other.value()),
    {
        let r = binary_multiplier(self, other);
        proof {
            let k1 = lemma_value_uval(self);
            let k2 = lemma_value_uval(other);
            let a = self.value();
            let b = other.value();
            let m = modulus();
            let k = k1 * b + k2 * a + k1 * k2 * m;
            lemma_mul_expand(a, b, k1, k2, m);
            lemma_wrap_congruent(self.uval() * other.uval(), a * b, k);
        }
        r
    }

    /// The magnitude of the value as an unsigned pattern; for the most
    /// negative value that is 2^63.
    fn magnitude(self) -> (r: Number)
        ensures
            r.uval() == abs(self.value()),
    {
        proof {
            lemma_sign_bit(self);
        }
        if self.is_negative() {
            let r = complement(self);
            proof {
                lemma_value_uval(self);
                vstd::arithmetic::div_mod::lemma_small_mod(
                    (modulus() - self.uval()) as nat,
                    modulus() as nat,
                );
            }
            r
        } else {
            self
        }
    }

    /// Quotient truncated toward zero, by long division of the magnitudes;
    /// the quotient is negated where exactly one operand is negative.
    /// Dividing the most negative value by -1 wraps to the most negative
    /// value.
    pub fn divide(self, other: Number) -> (r: Result<Number, ArithmeticError>)
        ensures
            other.value() == 0 <==> r is Err,
            r matches Err(e) ==> e == ArithmeticError::DivisionByZero,
            r matches Ok(q) ==> q.value() == wrap(div_trunc(self.value(), other.value())),
    {
        proof {
            lemma_value_uval(other);
            lemma_sign_bit(self);
            lemma_sign_bit(other);
        }
        if unsigned_ge(Number::zero(), other) {
            return Err(ArithmeticError::DivisionByZero);
        }
        let negate = self.is_negative() != other.is_negative();
        let dividend = self.magnitude();
        let divisor = other.magnitude();
        let quotient = binary_divider(dividend, divisor);
        let ghost q = quotient.uval();
        proof {
            lemma_bits_val_bound(quotient@);
            lemma_pow2_64();
            vstd::arithmetic::div_mod::lemma_div_is_ordered_by_denominator(
                dividend.uval(),
                1,
                divisor.uval(),
            );
            lemma_wrap_signed(q);
        }
        if negate {
            let r = quotient.negate();
            proof {
                let k = lemma_value_uval(quotient);
                lemma_wrap_congruent(-quotient.value(), -q, k);
            }
            Ok(r)
        } else {
            Ok(quotient)
        }
    }
}

proof fn lemma_mul_expand(a: int, b: int, k1: int, k2: int, m: int)
    ensures
        (a + k1 * m) * (b + k2 * m) == a * b + (k1 * b + k2 * a + k1 * k2 * m) * m,
{
    let x = a + k1 * m;
    let y = b + k2 * m;
    assert(x * y == a * y + (k1 * m) * y) by (nonlinear_arith)
        requires
            x == a + k1 * m,
    ;
    assert(a * y == a * b + (k2 * a) * m) by (nonlinear_arith)
        requires
            y == b + k2 * m,
    ;
    assert((k1 * m) * y == (k1 * b) * m + (k1 * k2 * m) * m) by (nonlinear_arith)
        requires
            y == b + k2 * m,
    ;
    assert((k2 * a) * m + (k1 * b) * m + (k1 * k2 * m) * m == (k1 * b + k2 * a + k1 * k2 * m)
        * m) by (nonlinear_arith);
}

/// The unsigned reading of a pattern is its signed value, or that plus 2^64
/// where the sign bit is on; the result says which.
pub proof fn lemma_value_uval(n: Number) -> (k: int)
    ensures
        k == 0 || k == 1,
        n.uval() == n.value() + k * modulus(),
        0 <= n.uval() < modulus(),
{
    lemma_sign_bit(n);
    if n.uval() < half_modulus() {
        0
    } else {
        1
    }
}

pub(crate) proof fn lemma_shl_value(a: Number, r: Number, n: nat)
    requires
        forall|i: int|
            0 <= i < 64 ==> r@[i] == (if i + n < 64 {
                a@[i + n]
            } else {
                Bit::Off
            }),
    ensures
        r.uval() == (a.uval() * pow2(n)) % modulus(),
{
    lemma_pow2_64();
    if n >= 64 {
        lemma_bits_val_zeros(r@);
        lemma_pow2_adds(64, (n - 64) as nat);
        let q = pow2((n - 64) as nat);
        vstd::arithmetic::div_mod::lemma_mod_multiples_basic(a.uval() * q, modulus());
        assert(a.uval() * pow2(n) == (a.uval() * q) * modulus()) by (nonlinear_arith)
            requires
                pow2(n) == modulus() * q,
        ;
    } else {
        let k = (64 - n) as int;
        let hi = a@.subrange(n as int, 64);
        let z = Seq::new(n, |i: int| Bit::Off);
        assert(r@ =~= hi + z);
        lemma_bits_val_trailing_zeros(hi, z);
        lemma_bits_val_div_mod(a@, n as int);
        lemma_pow2_pos(n);
        lemma_pow2_pos(k as nat);
        vstd::arithmetic::div_mod::lemma_truncate_middle(
            a.uval(),
            pow2(n) as int,
            pow2(k as nat) as int,
        );
        lemma_pow2_adds(n, k as nat);
        assert(pow2(n) * a.uval() == a.uval() * pow2(n)) by (nonlinear_arith);
        assert(pow2(n) * (a.uval() % (pow2(k as nat) as int)) == (a.uval() % (pow2(k as nat) as int)) * pow2(n))
            by (nonlinear_arith);
    }
}

proof fn lemma_shr_value(a: Number, r: Number, n: nat)
    requires
        forall|i: int|
            0 <= i < 64 ==> r@[i] == (if i >= n {
                a@[i - n]
            } else {
                Bit::Off
            }),
    ensures
        r.uval() == a.uval() / (pow2(n) as int),
{
    lemma_pow2_64();
    lemma_bits_val_bound(a@);
    if n >= 64 {
        lemma_bits_val_zeros(r@);
        if n > 64 {
            lemma_pow2_strictly_increases(64, n);
        }
        vstd::arithmetic::div_mod::lemma_basic_div(a.uval(), pow2(n) as int);
    } else {
        let lo = a@.subrange(0, 64 - n);
        let z = Seq::new(n, |i: int| Bit::Off);
        assert(r@ =~= z + lo);
        lemma_bits_val_leading_zeros(z, lo);
        lemma_bits_val_div_mod(a@, 64 - n);
    }
}

/// The sign bit is on exactly when the unsigned value reaches 2^63.
pub proof fn lemma_sign_bit(n: Number)
    ensures
        (n@[0] == Bit::On) == (n.uval() >= half_modulus()),
        n.uval() < modulus(),
        (n@[0] == Bit::On) == (n.value() < 0),
        -half_modulus() <= n.value() < half_modulus(),
{
    lemma_pow2_64();
    lemma_bits_val_bound(n@);
    lemma_bits_val_bound(n@.drop_first());
    let rest = bits_val(n@.drop_first()) as int;
    assert(n.uval() == n@[0].val() * pow2(63) + rest);
    assert(rest < half_modulus());
    assert(pow2(63) == half_modulus());
    if n@[0] == Bit::On {
        assert(n@[0].val() == 1);
        assert(n.uval() == half_modulus() + rest) by (nonlinear_arith)
            requires
                n.uval() == 1 * pow2(63) + rest,
                pow2(63) == half_modulus(),
        ;
    } else {
        assert(n@[0].val() == 0);
        assert(n.uval() == rest) by (nonlinear_arith)
            requires
                n.uval() == 0 * pow2(63) + rest,
        ;
    }
}

} // verus!
