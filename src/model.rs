//! The arithmetic model of a 64-bit two's-complement bit pattern: what a
//! sequence of bits is worth, and how integers wrap modulo 2^64.

use vstd::prelude::*;
use vstd::arithmetic::power2::*;
use vstd::arithmetic::div_mod::*;
use crate::bit::Bit;

verus! {

/// 2^64, the number of distinct 64-bit patterns.
pub open spec fn modulus() -> int {
    0x1_0000_0000_0000_0000
}

/// 2^63, the weight of the sign bit.
pub open spec fn half_modulus() -> int {
    0x8000_0000_0000_0000
}

/// The unsigned value of a bit sequence, most significant bit first.
pub open spec fn bits_val(s: Seq<Bit>) -> nat
    decreases s.len(),
{
    if s.len() == 0 {
        0
    } else {
        s[0].val() * pow2((s.len() - 1) as nat) + bits_val(s.drop_first())
    }
}

/// The signed integer that a 64-bit unsigned value stands for in two's
/// complement.
pub open spec fn signed(u: int) -> int {
    if u < half_modulus() {
        u
    } else {
        u - modulus()
    }
}

/// The 64-bit two's-complement integer congruent to `x` modulo 2^64: what
/// native wrapping arithmetic yields.
pub open spec fn wrap(x: int) -> int {
    signed(x % modulus())
}

/// The absolute value of an integer.
pub open spec fn abs(x: int) -> int {
    if x < 0 {
        -x
    } else {
        x
    }
}

/// Integer division truncating toward zero.
pub open spec fn div_trunc(x: int, y: int) -> int {
    if (x < 0) == (y < 0) {
        abs(x) / abs(y)
    } else {
        -(abs(x) / abs(y))
    }
}

pub proof fn lemma_pow2_64()
    ensures
        pow2(64) == modulus(),
        pow2(63) == half_modulus(),
{
    lemma2_to64();
    lemma2_to64_rest();
}

/// A bit sequence of length n is worth less than 2^n.
pub proof fn lemma_bits_val_bound(s: Seq<Bit>)
    ensures
        bits_val(s) < pow2(s.len()),
    decreases s.len(),
{
    if s.len() == 0 {
        lemma2_to64();
    } else {
        let n = s.len();
        let m = (n - 1) as nat;
        lemma_bits_val_bound(s.drop_first());
        lemma_pow2_unfold(n);
        let p = pow2(m);
        let r = bits_val(s.drop_first());
        let v = s[0].val();
        assert(bits_val(s) == v * p + r);
        assert(r < p);
        assert(v * p + r < 2 * p) by (nonlinear_arith)
            requires
                v <= 1,
                r < p,
        ;
    }
}

/// The value of a suffix of a sequence unfolds by its first bit.
pub proof fn lemma_suffix_unfold(s: Seq<Bit>, i: int)
    requires
        0 <= i < s.len(),
    ensures
        bits_val(s.subrange(i, s.len() as int)) == s[i].val() * pow2((s.len() - 1 - i) as nat)
            + bits_val(s.subrange(i + 1, s.len() as int)),
{
    let t = s.subrange(i, s.len() as int);
    assert(t.drop_first() =~= s.subrange(i + 1, s.len() as int));
}

/// Appending a bit doubles the value and adds the bit.
pub proof fn lemma_bits_val_push(s: Seq<Bit>, b: Bit)
    ensures
        bits_val(s.push(b)) == 2 * bits_val(s) + b.val(),
    decreases s.len(),
{
    let t = s.push(b);
    if s.len() == 0 {
        assert(t.drop_first() =~= Seq::<Bit>::empty());
        lemma2_to64();
        assert(bits_val(t) == t[0].val() * pow2(0) + bits_val(t.drop_first()));
    } else {
        let n = s.len();
        assert(t.drop_first() =~= s.drop_first().push(b));
        lemma_bits_val_push(s.drop_first(), b);
        lemma_pow2_unfold(n);
        let p = pow2((n - 1) as nat);
        let v = s[0].val();
        let r = bits_val(s.drop_first());
        assert(bits_val(t) == v * pow2(n) + bits_val(t.drop_first()));
        assert(bits_val(s) == v * p + r);
        assert(v * (2 * p) + (2 * r + b.val()) == 2 * (v * p + r) + b.val()) by (nonlinear_arith);
    }
}

/// Splitting a sequence at i: the prefix counts 2^(n-i) times.
pub proof fn lemma_bits_val_split(s: Seq<Bit>, i: int)
    requires
        0 <= i <= s.len(),
    ensures
        bits_val(s) == bits_val(s.subrange(0, i)) * pow2((s.len() - i) as nat) + bits_val(
            s.subrange(i, s.len() as int),
        ),
    decreases i,
{
    let n = s.len() as int;
    if i == 0 {
        assert(s.subrange(0, 0) =~= Seq::<Bit>::empty());
        assert(s.subrange(0, n) =~= s);
        assert(bits_val(s.subrange(0, 0)) == 0);
        assert(0 * pow2((s.len() - i) as nat) == 0);
    } else {
        lemma_bits_val_split(s, i - 1);
        lemma_suffix_unfold(s, i - 1);
        assert(s.subrange(0, i)[i - 1] == s[i - 1]);
        assert(s.subrange(0, i) =~= s.subrange(0, i - 1).push(s[i - 1]));
        lemma_bits_val_push(s.subrange(0, i - 1), s[i - 1]);
        lemma_pow2_unfold((n - i + 1) as nat);
        let p = pow2((n - i) as nat);
        let a = bits_val(s.subrange(0, i - 1));
        let b = s[i - 1].val();
        let c = bits_val(s.subrange(i, n));
        assert(pow2((n - (i - 1)) as nat) == 2 * p);
        assert(bits_val(s) == a * pow2((n - (i - 1)) as nat) + bits_val(s.subrange(i - 1, n)));
        assert(bits_val(s.subrange(i - 1, n)) == b * p + c);
        assert(bits_val(s.subrange(0, i)) == 2 * a + b);
        assert(bits_val(s) == a * (2 * p) + (b * p + c));
        assert(a * (2 * p) + b * p == (2 * a + b) * p) by (nonlinear_arith);
    }
}

/// The value of a sequence of Off bits is zero.
pub proof fn lemma_bits_val_zeros(s: Seq<Bit>)
    requires
        forall|i: int| 0 <= i < s.len() ==> s[i] == Bit::Off,
    ensures
        bits_val(s) == 0,
    decreases s.len(),
{
    if s.len() > 0 {
        lemma_bits_val_zeros(s.drop_first());
    }
}

/// Leading Off bits add nothing to a value.
pub proof fn lemma_bits_val_leading_zeros(z: Seq<Bit>, s: Seq<Bit>)
    requires
        forall|i: int| 0 <= i < z.len() ==> z[i] == Bit::Off,
    ensures
        bits_val(z + s) == bits_val(s),
{
    let t = z + s;
    lemma_bits_val_split(t, z.len() as int);
    assert(t.subrange(0, z.len() as int) =~= z);
    assert(t.subrange(z.len() as int, t.len() as int) =~= s);
    lemma_bits_val_zeros(z);
}

/// Trailing Off bits multiply a value by a power of two.
pub proof fn lemma_bits_val_trailing_zeros(s: Seq<Bit>, z: Seq<Bit>)
    requires
        forall|i: int| 0 <= i < z.len() ==> z[i] == Bit::Off,
    ensures
        bits_val(s + z) == bits_val(s) * pow2(z.len()),
{
    let t = s + z;
    lemma_bits_val_split(t, s.len() as int);
    assert(t.subrange(0, s.len() as int) =~= s);
    assert(t.subrange(s.len() as int, t.len() as int) =~= z);
    lemma_bits_val_zeros(z);
}

/// The last k bits of a sequence hold its value modulo 2^k, the first bits
/// its quotient.
pub proof fn lemma_bits_val_div_mod(s: Seq<Bit>, i: int)
    requires
        0 <= i <= s.len(),
    ensures
        bits_val(s.subrange(i, s.len() as int)) == bits_val(s) % pow2((s.len() - i) as nat),
        bits_val(s.subrange(0, i)) == bits_val(s) / pow2((s.len() - i) as nat),
{
    let k = (s.len() - i) as nat;
    lemma_bits_val_split(s, i);
    let sub = s.subrange(i, s.len() as int);
    lemma_bits_val_bound(sub);
    lemma_pow2_pos(k);
    lemma_fundamental_div_mod_converse(
        bits_val(s) as int,
        pow2(k) as int,
        bits_val(s.subrange(0, i)) as int,
        bits_val(sub) as int,
    );
}

/// Bits that differ everywhere add up to 2^n - 1.
pub proof fn lemma_bits_val_flip(s: Seq<Bit>, t: Seq<Bit>)
    requires
        s.len() == t.len(),
        forall|i: int| 0 <= i < s.len() ==> s[i] != t[i],
    ensures
        bits_val(s) + bits_val(t) == pow2(s.len()) - 1,
    decreases s.len(),
{
    if s.len() == 0 {
        lemma2_to64();
    } else {
        let n = s.len();
        let p = pow2((n - 1) as nat);
        lemma_bits_val_flip(s.drop_first(), t.drop_first());
        lemma_pow2_unfold(n);
        assert(s[0].val() + t[0].val() == 1);
        assert(s[0].val() * p + t[0].val() * p == p) by (nonlinear_arith)
            requires
                s[0].val() + t[0].val() == 1,
        ;
    }
}

/// A value below 2^64 is its own remainder.
pub proof fn lemma_wrap_signed(u: int)
    requires
        0 <= u < modulus(),
    ensures
        wrap(u) == signed(u),
{
    lemma_small_mod(u as nat, modulus() as nat);
}

/// Congruent integers wrap to the same value.
pub proof fn lemma_wrap_congruent(x: int, y: int, k: int)
    requires
        x == y + k * modulus(),
    ensures
        wrap(x) == wrap(y),
{
    lemma_mod_multiples_vanish(k, y, modulus());
    assert(k * modulus() + y == x);
}

} // verus!
