//! Laws of the arithmetic on `Number`, stated over the results that the
//! operations' contracts describe.

use vstd::prelude::*;
use vstd::arithmetic::power2::{lemma_pow2_pos, pow2};
use vstd::arithmetic::div_mod::{lemma_fundamental_div_mod, lemma_mod_bound};
use crate::bit::Bit;
use crate::model::{
    bits_val, half_modulus, lemma_bits_val_bound, lemma_wrap_congruent, modulus, wrap,
};
use crate::number::{lemma_sign_bit, lemma_value_uval, Number};

verus! {

/// Bit sequences of one length with the same value are equal.
proof fn lemma_bits_val_injective(s: Seq<Bit>, t: Seq<Bit>)
    requires
        s.len() == t.len(),
        bits_val(s) == bits_val(t),
    ensures
        s == t,
    decreases s.len(),
{
    if s.len() == 0 {
        assert(s =~= t);
    } else {
        let p = pow2((s.len() - 1) as nat);
        lemma_bits_val_bound(s.drop_first());
        lemma_bits_val_bound(t.drop_first());
        lemma_pow2_pos((s.len() - 1) as nat);
        if s[0] != t[0] {
            assert(false);
        }
        lemma_bits_val_injective(s.drop_first(), t.drop_first());
        assert(s =~= t.drop_first().insert(0, t[0]));
        assert(t =~= t.drop_first().insert(0, t[0]));
    }
}

/// A `Number` is determined by the integer it stands for: two Numbers with
/// the same value hold the same bits.
pub proof fn lemma_value_determines_bits(a: Number, b: Number)
    requires
        a.value() == b.value(),
    ensures
        a == b,
{
    let ka = lemma_value_uval(a);
    let kb = lemma_value_uval(b);
    lemma_sign_bit(a);
    lemma_sign_bit(b);
    lemma_bits_val_injective(a@, b@);
    assert(a.0 =~= b.0);
}

/// Round trip: the Number that encodes a native integer `n` decodes to `n`
/// again, and it is the only Number that does.
pub proof fn lemma_round_trip(n: i64, encoded: Number, other: Number)
    requires
        encoded.value() == n,
    ensures
        encoded.value() as i64 == n,
        other.value() == n ==> other == encoded,
{
    if other.value() == n {
        lemma_value_determines_bits(other, encoded);
    }
}

/// Every value a Number stands for fits a native 64-bit signed integer, and
/// wrapping leaves it unchanged.
pub proof fn lemma_value_in_range(a: Number)
    ensures
        i64::MIN <= a.value() <= i64::MAX,
        wrap(a.value()) == a.value(),
{
    let k = lemma_value_uval(a);
    lemma_sign_bit(a);
    lemma_wrap_congruent(a.value(), a.uval(), -k);
    vstd::arithmetic::div_mod::lemma_small_mod(a.uval() as nat, modulus() as nat);
}

/// Wrapping differs from the integer by a multiple of 2^64.
proof fn lemma_wrap_offset(x: int) -> (k: int)
    ensures
        wrap(x) == x + k * modulus(),
{
    let m = modulus();
    lemma_fundamental_div_mod(x, m);
    lemma_mod_bound(x, m);
    if x % m < half_modulus() {
        -(x / m)
    } else {
        -(x / m) - 1
    }
}

/// Addition is commutative: `add(a, b)` and `add(b, a)` are the same Number.
pub proof fn lemma_add_commutative(a: Number, b: Number, ab: Number, ba: Number)
    requires
        ab.value() == wrap(a.value() + b.value()),
        ba.value() == wrap(b.value() + a.value()),
    ensures
        ab == ba,
{
    lemma_value_determines_bits(ab, ba);
}

/// Addition is associative modulo 2^64: `add(add(a, b), c)` and
/// `add(a, add(b, c))` are the same Number.
pub proof fn lemma_add_associative(
    a: Number,
    b: Number,
    c: Number,
    ab: Number,
    ab_c: Number,
    bc: Number,
    a_bc: Number,
)
    requires
        ab.value() == wrap(a.value() + b.value()),
        ab_c.value() == wrap(ab.value() + c.value()),
        bc.value() == wrap(b.value() + c.value()),
        a_bc.value() == wrap(a.value() + bc.value()),
    ensures
        ab_c == a_bc,
{
    let k1 = lemma_wrap_offset(a.value() + b.value());
    let k2 = lemma_wrap_offset(b.value() + c.value());
    lemma_wrap_congruent(ab.value() + c.value(), a.value() + b.value() + c.value(), k1);
    lemma_wrap_congruent(a.value() + bc.value(), a.value() + b.value() + c.value(), k2);
    lemma_value_determines_bits(ab_c, a_bc);
}

/// Negating twice gives the Number back, for every Number (the most
/// negative value included, which is its own negation).
pub proof fn lemma_negate_involutive(a: Number, na: Number, nna: Number)
    requires
        na.value() == wrap(-a.value()),
        nna.value() == wrap(-na.value()),
    ensures
        nna == a,
{
    let k = lemma_wrap_offset(-a.value());
    lemma_wrap_congruent(-na.value(), a.value(), -k);
    lemma_value_in_range(a);
    lemma_value_determines_bits(nna, a);
}

/// The most negative value is its own negation: two's complement has no
/// positive counterpart for it.
pub proof fn lemma_negate_min(a: Number, na: Number)
    requires
        a.value() == i64::MIN,
        na.value() == wrap(-a.value()),
    ensures
        na == a,
{
    lemma_wrap_congruent(-a.value(), a.value(), 1);
    lemma_value_in_range(a);
    lemma_value_determines_bits(na, a);
}

} // verus!
