//! Bit-level circuits over 64-bit patterns: ripple-carry addition,
//! two's-complement negation, shifts, shift-and-add multiplication and long
//! division. Each circuit is stated over the unsigned value of the bits,
//! modulo 2^64.

use vstd::prelude::*;
use vstd::arithmetic::power2::{lemma2_to64, lemma_pow2_unfold, pow2};
use vstd::arithmetic::div_mod::{
    lemma_add_mod_noop, lemma_add_mod_noop_right, lemma_fundamental_div_mod_converse,
    lemma_mod_add_multiples_vanish, lemma_mod_twice, lemma_small_mod,
};
use crate::bit::{and, not, spec_and, Bit};
use crate::model::{
    bits_val, half_modulus, lemma_bits_val_bound, lemma_bits_val_flip, lemma_bits_val_push,
    lemma_bits_val_split, lemma_bits_val_zeros, lemma_pow2_64, lemma_suffix_unfold, modulus,
};
use crate::number::Number;

verus! {

proof fn lemma_adder_step(s: int, c2: int, x: int, y: int, c: int, p: int)
    requires
        s + 2 * c2 == x + y + c,
    ensures
        s * p + c2 * (2 * p) == x * p + y * p + c * p,
{
    assert(s * p + c2 * (2 * p) == (s + 2 * c2) * p) by (nonlinear_arith);
    assert((x + y + c) * p == x * p + y * p + c * p) by (nonlinear_arith);
}

/// Ripple-carry addition from the least significant bit up: a half adder
/// for the last position, full adders for the others. The carry out of the
/// sign bit is dropped, so the sum wraps modulo 2^64.
pub fn binary_adder(xb: Number, yb: Number) -> (r: Number)
    ensures
        r.uval() == (xb.uval() + yb.uval()) % modulus(),
{
    let mut rval = Number::zero();
    let mut carry = Bit::Off;
    let mut i: usize = 64;
    proof {
        assert(rval@.subrange(64, 64) =~= Seq::<Bit>::empty());
        assert(xb@.subrange(64, 64) =~= Seq::<Bit>::empty());
        assert(yb@.subrange(64, 64) =~= Seq::<Bit>::empty());
    }
    while i > 0
        invariant
            i <= 64,
            i == 64 ==> carry == Bit::Off,
            bits_val(rval@.subrange(i as int, 64)) + carry.val() * pow2((64 - i) as nat)
                == bits_val(xb@.subrange(i as int, 64)) + bits_val(yb@.subrange(i as int, 64)),
        decreases i,
    {
        i -= 1;
        let result = if i == 63 {
            Bit::half_adder(xb.get(i), yb.get(i))
        } else {
            Bit::full_adder(xb.get(i), yb.get(i), carry)
        };
        let ghost prev = rval;
        let ghost c = carry;
        rval.set(i, result.0);
        carry = result.1;
        proof {
            assert(rval@.subrange(i + 1, 64) =~= prev@.subrange(i + 1, 64));
            lemma_suffix_unfold(rval@, i as int);
            lemma_suffix_unfold(xb@, i as int);
            lemma_suffix_unfold(yb@, i as int);
            lemma_pow2_unfold((64 - i) as nat);
            lemma_adder_step(
                result.0.val() as int,
                result.1.val() as int,
                xb@[i as int].val() as int,
                yb@[i as int].val() as int,
                c.val() as int,
                pow2((63 - i) as nat) as int,
            );
        }
    }
    proof {
        assert(rval@.subrange(0, 64) =~= rval@);
        assert(xb@.subrange(0, 64) =~= xb@);
        assert(yb@.subrange(0, 64) =~= yb@);
        lemma_pow2_64();
        lemma_bits_val_bound(rval@);
        lemma_fundamental_div_mod_converse(
            xb.uval() + yb.uval(),
            modulus(),
            carry.val() as int,
            rval.uval(),
        );
    }
    rval
}

/// Two's-complement negation: flip every bit, then add one.
pub fn complement(b: Number) -> (r: Number)
    ensures
        r.uval() == (modulus() - b.uval()) % modulus(),
{
    let mut flipped = Number::zero();
    let mut i: usize = 0;
    while i < 64
        invariant
            i <= 64,
            forall|j: int| 0 <= j < i ==> flipped@[j] != b@[j],
        decreases 64 - i,
    {
        flipped.set(i, not(b.get(i)));
        i += 1;
    }
    let one = Number::one();
    let r = binary_adder(flipped, one);
    proof {
        lemma_bits_val_flip(flipped@, b@);
        lemma_pow2_64();
    }
    r
}

/// Subtraction: add the two's complement of `yb` to `xb`.
pub fn binary_subtractor(xb: Number, yb: Number) -> (r: Number)
    ensures
        r.uval() == (xb.uval() - yb.uval()) % modulus(),
{
    let c = complement(yb);
    let r = binary_adder(xb, c);
    proof {
        let m = modulus();
        let x = xb.uval();
        let y = yb.uval();
        lemma_add_mod_noop_right(x, m - y, m);
        lemma_mod_add_multiples_vanish(x - y, m);
        assert(x + (m - y) == m + (x - y));
    }
    r
}

proof fn lemma_accumulate(acc: int, x: int, s: int, b: int, p: int, partial: int)
    requires
        acc == (x * s) % modulus(),
        b == 0 || b == 1,
        partial == b * ((x * p) % modulus()),
    ensures
        (acc + partial) % modulus() == (x * (b * p + s)) % modulus(),
{
    let m = modulus();
    if b == 0 {
        lemma_mod_twice(x * s, m);
        assert(x * (b * p + s) == x * s) by (nonlinear_arith)
            requires
                b == 0,
        ;
    } else {
        lemma_add_mod_noop(x * s, x * p, m);
        assert(x * (b * p + s) == x * s + x * p) by (nonlinear_arith)
            requires
                b == 1,
        ;
    }
}

/// One partial product of the multiplier: every bit of `a` ANDed with
/// `bit`, moved `offset` positions toward the sign bit. Bits moved past the
/// sign bit are dropped.
fn partial_product(a: Number, bit: Bit, offset: usize) -> (r: Number)
    requires
        offset < 64,
    ensures
        r.uval() == bit.val() * ((a.uval() * pow2(offset as nat)) % modulus()),
{
    let mut partial = Number::zero();
    let mut j: usize = offset;
    while j < 64
        invariant
            offset <= j <= 64,
            forall|k: int|
                0 <= k < 64 ==> partial@[k] == (if k + offset < j {
                    and(a@[k + offset], bit)
                } else {
                    Bit::Off
                }),
        decreases 64 - j,
    {
        partial.set(j - offset, Bit::multiplier(a.get(j), bit));
        j += 1;
    }
    proof {
        if bit == Bit::On {
            assert forall|k: int| 0 <= k < 64 implies partial@[k] == (if k + offset < 64 {
                a@[k + offset]
            } else {
                Bit::Off
            }) by {
                if k + offset < 64 {
                    assert(partial@[k] == spec_and(a@[k + offset], bit));
                }
            }
            crate::number::lemma_shl_value(a, partial, offset as nat);
        } else {
            assert forall|k: int| 0 <= k < 64 implies partial@[k] == Bit::Off by {
                if k + offset < 64 {
                    assert(partial@[k] == spec_and(a@[k + offset], bit));
                }
            }
            lemma_bits_val_zeros(partial@);
        }
    }
    partial
}

/// Shift-and-add multiplication: for each bit of `yb`, least significant
/// first, add the matching partial product to an accumulator. The product
/// wraps modulo 2^64.
pub fn binary_multiplier(xb: Number, yb: Number) -> (r: Number)
    ensures
        r.uval() == (xb.uval() * yb.uval()) % modulus(),
{
    let mut accumulator = Number::zero();
    let mut i: usize = 64;
    proof {
        assert(yb@.subrange(64, 64) =~= Seq::<Bit>::empty());
        lemma_small_mod(0, modulus() as nat);
        assert(xb.uval() * 0 == 0);
    }
    while i > 0
        invariant
            i <= 64,
            accumulator.uval() == (xb.uval() * bits_val(yb@.subrange(i as int, 64))) % modulus(),
        decreases i,
    {
        i -= 1;
        let partial = partial_product(xb, yb.get(i), 63 - i);
        let ghost acc = accumulator;
        accumulator = binary_adder(accumulator, partial);
        proof {
            lemma_suffix_unfold(yb@, i as int);
            lemma_accumulate(
                acc.uval(),
                xb.uval(),
                bits_val(yb@.subrange(i + 1, 64)) as int,
                yb@[i as int].val() as int,
                pow2((63 - i) as nat) as int,
                partial.uval(),
            );
        }
    }
    proof {
        assert(yb@.subrange(0, 64) =~= yb@);
    }
    accumulator
}

/// Unsigned comparison, most significant bit first: the first position
/// where the two differ decides.
pub fn unsigned_ge(a: Number, b: Number) -> (r: bool)
    ensures
        r == (a.uval() >= b.uval()),
{
    let mut j: usize = 0;
    while j < 64 && a.get(j) == b.get(j)
        invariant
            j <= 64,
            forall|k: int| 0 <= k < j ==> a@[k] == b@[k],
        decreases 64 - j,
    {
        j += 1;
    }
    if j == 64 {
        proof {
            assert(a@ =~= b@);
        }
        true
    } else {
        proof {
            if a@[j as int] == Bit::On {
                lemma_first_difference(a, b, j as int);
            } else {
                lemma_first_difference(b, a, j as int);
            }
        }
        a.get(j) == Bit::On
    }
}

/// Where two patterns agree before position j and the first has On at j
/// where the second has Off, the first is the larger.
proof fn lemma_first_difference(a: Number, b: Number, j: int)
    requires
        0 <= j < 64,
        forall|k: int| 0 <= k < j ==> a@[k] == b@[k],
        a@[j] == Bit::On,
        b@[j] == Bit::Off,
    ensures
        a.uval() > b.uval(),
{
    assert(a@.subrange(0, j) =~= b@.subrange(0, j));
    lemma_bits_val_split(a@, j + 1);
    lemma_bits_val_split(b@, j + 1);
    assert(a@.subrange(0, j + 1) =~= a@.subrange(0, j).push(a@[j]));
    assert(b@.subrange(0, j + 1) =~= b@.subrange(0, j).push(b@[j]));
    lemma_bits_val_push(a@.subrange(0, j), a@[j]);
    lemma_bits_val_push(b@.subrange(0, j), b@[j]);
    lemma_bits_val_bound(b@.subrange(j + 1, 64));
    let w = pow2((63 - j) as nat) as int;
    let p = bits_val(a@.subrange(0, j)) as int;
    let ra = bits_val(a@.subrange(j + 1, 64)) as int;
    let rb = bits_val(b@.subrange(j + 1, 64)) as int;
    assert((2 * p + 1) * w + ra > (2 * p) * w + rb) by (nonlinear_arith)
        requires
            rb < w,
            ra >= 0,
    ;
}

/// Setting the last bit of a pattern whose last bit is Off adds that bit.
proof fn lemma_set_last(s: Number, t: Number, b: Bit)
    requires
        s@[63] == Bit::Off,
        t@ == s@.update(63, b),
    ensures
        t.uval() == s.uval() + b.val(),
{
    lemma_bits_val_split(s@, 63);
    lemma_bits_val_split(t@, 63);
    assert(t@.subrange(0, 63) =~= s@.subrange(0, 63));
    lemma_suffix_unfold(s@, 63);
    lemma_suffix_unfold(t@, 63);
    assert(s@.subrange(64, 64) =~= Seq::<Bit>::empty());
    assert(t@.subrange(64, 64) =~= Seq::<Bit>::empty());
    lemma2_to64();
}

/// Unsigned long division, the dividend's bits taken most significant
/// first: the partial remainder moves one position up and takes in the next
/// bit; where it reaches the divisor, the quotient bit is set and the
/// divisor subtracted. The divisor must fit in 63 bits or be exactly 2^63,
/// which covers the magnitude of every 64-bit signed integer.
pub fn binary_divider(dividend: Number, divisor: Number) -> (r: Number)
    requires
        0 < divisor.uval() <= half_modulus(),
    ensures
        r.uval() == dividend.uval() / divisor.uval(),
{
    let ghost d = divisor.uval();
    let mut quotient = Number::zero();
    let mut partial_dividend = Number::zero();
    let mut i: usize = 0;
    proof {
        assert(dividend@.subrange(0, 0) =~= Seq::<Bit>::empty());
        assert(quotient@.subrange(0, 0) =~= Seq::<Bit>::empty());
        assert(bits_val(dividend@.subrange(0, 0)) == 0);
        assert(bits_val(quotient@.subrange(0, 0)) == 0);
        assert(0 * d == 0);
    }
    while i < 64
        invariant
            i <= 64,
            0 < d == divisor.uval() <= half_modulus(),
            bits_val(dividend@.subrange(0, i as int)) == bits_val(quotient@.subrange(0, i as int))
                * d + partial_dividend.uval(),
            partial_dividend.uval() < d,
        decreases 64 - i,
    {
        let ghost prev_q = quotient;
        let ghost rem = partial_dividend.uval();
        let mut shifted = partial_dividend.shl(1);
        let ghost before_set = shifted;
        shifted.set(63, dividend.get(i));
        proof {
            lemma_pow2_64();
            lemma2_to64();
            lemma_small_mod((rem * 2) as nat, modulus() as nat);
            lemma_set_last(before_set, shifted, dividend@[i as int]);
        }
        let result = if unsigned_ge(shifted, divisor) {
            Bit::On
        } else {
            Bit::Off
        };
        quotient.set(i, result);
        if result == Bit::On {
            let ghost sv = shifted.uval();
            partial_dividend = binary_subtractor(shifted, divisor);
            proof {
                lemma_small_mod((sv - d) as nat, modulus() as nat);
            }
        } else {
            partial_dividend = shifted;
        }
        proof {
            assert(dividend@.subrange(0, i + 1) =~= dividend@.subrange(0, i as int).push(
                dividend@[i as int],
            ));
            assert(quotient@.subrange(0, i + 1) =~= prev_q@.subrange(0, i as int).push(result));
            lemma_bits_val_push(dividend@.subrange(0, i as int), dividend@[i as int]);
            lemma_bits_val_push(prev_q@.subrange(0, i as int), result);
            let q = bits_val(prev_q@.subrange(0, i as int)) as int;
            assert(2 * (q * d + rem) + dividend@[i as int].val() == (2 * q + result.val()) * d
                + partial_dividend.uval()) by (nonlinear_arith)
                requires
                    result == Bit::On ==> partial_dividend.uval() == 2 * rem
                        + dividend@[i as int].val() - d,
                    result == Bit::Off ==> partial_dividend.uval() == 2 * rem
                        + dividend@[i as int].val(),
                    result.val() == (if result == Bit::On { 1int } else { 0int }),
            ;
        }
        i += 1;
    }
    proof {
        assert(dividend@.subrange(0, 64) =~= dividend@);
        assert(quotient@.subrange(0, 64) =~= quotient@);
        lemma_fundamental_div_mod_converse(
            dividend.uval(),
            d,
            quotient.uval(),
            partial_dividend.uval(),
        );
    }
    quotient
}

} // verus!
