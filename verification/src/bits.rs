//! Bit-sequence model of the packed encoding.
//!
//! A packed block is a sequence of bits, least-significant bit first within
//! each byte.  These spec functions relate byte sequences, bit sequences and
//! the integer value of a bit string, and are the vocabulary of the packer's
//! and unpacker's contracts.

use vstd::prelude::*;

verus! {

use vstd::arithmetic::power2::{pow2, lemma_pow2_unfold, lemma_pow2_pos, lemma2_to64};
use vstd::arithmetic::div_mod::{lemma_fundamental_div_mod_converse, lemma_div_denominator};

/// Bit `i` of the natural number `n`.
pub open spec fn nth_bit(n: nat, i: nat) -> bool {
    (n / pow2(i)) % 2 == 1
}

/// Integer value of a bit string, least significant bit first.
pub open spec fn bits_value(c: Seq<bool>) -> nat
    decreases c.len(),
{
    if c.len() == 0 {
        0
    } else {
        (if c[0] {
            1nat
        } else {
            0nat
        }) + 2 * bits_value(c.drop_first())
    }
}

/// The 8 bits of a byte, least significant first.
pub open spec fn byte_bits(b: u8) -> Seq<bool> {
    Seq::new(8, |i: int| nth_bit(b as nat, i as nat))
}

/// All bits of a byte sequence, in order.
pub open spec fn bytes_bits(s: Seq<u8>) -> Seq<bool>
    decreases s.len(),
{
    if s.len() == 0 {
        Seq::empty()
    } else {
        bytes_bits(s.drop_last()) + byte_bits(s.last())
    }
}

pub proof fn lemma_bytes_bits_len(s: Seq<u8>)
    ensures
        bytes_bits(s).len() == 8 * s.len(),
    decreases s.len(),
{
    if s.len() > 0 {
        lemma_bytes_bits_len(s.drop_last());
    }
}

pub proof fn lemma_bytes_bits_push(s: Seq<u8>, x: u8)
    ensures
        bytes_bits(s.push(x)) == bytes_bits(s) + byte_bits(x),
{
    assert(s.push(x).drop_last() =~= s);
}

pub proof fn lemma_bits_value_bound(c: Seq<bool>)
    ensures
        bits_value(c) < pow2(c.len()),
    decreases c.len(),
{
    if c.len() == 0 {
        lemma2_to64();
    } else {
        lemma_bits_value_bound(c.drop_first());
        lemma_pow2_unfold(c.len());
    }
}

/// Reading bit `i` of the value of a bit string gives back the bit.
pub proof fn lemma_nth_bit_of_value(c: Seq<bool>, i: nat)
    requires
        i < c.len(),
    ensures
        nth_bit(bits_value(c), i) == c[i as int],
    decreases i,
{
    let n = bits_value(c);
    let b0: nat = if c[0] {
        1
    } else {
        0
    };
    let v = bits_value(c.drop_first());
    lemma2_to64();
    if i == 0 {
        lemma_fundamental_div_mod_converse(n as int, 2, v as int, b0 as int);
        assert(n / pow2(0) == n);
        assert(n % 2 == b0);
    } else {
        lemma_nth_bit_of_value(c.drop_first(), (i - 1) as nat);
        lemma_fundamental_div_mod_converse(n as int, 2, v as int, b0 as int);
        assert(n / 2 == v);
        lemma_pow2_unfold(i);
        lemma_pow2_pos((i - 1) as nat);
        lemma_div_denominator(n as int, 2, pow2((i - 1) as nat) as int);
        assert(n as int / (2 * pow2((i - 1) as nat) as int) == (n / 2) as int / pow2(
            (i - 1) as nat,
        ) as int);
        assert(nth_bit(n, i) == nth_bit(v, (i - 1) as nat));
        assert(c.drop_first()[i - 1] == c[i as int]);
    }
}

/// The value of a concatenation: the later bits are scaled by the length of
/// the earlier ones.
pub proof fn lemma_bits_value_concat(a: Seq<bool>, b: Seq<bool>)
    ensures
        bits_value(a + b) == bits_value(a) + bits_value(b) * pow2(a.len()),
    decreases a.len(),
{
    if a.len() == 0 {
        assert(a + b =~= b);
        lemma2_to64();
    } else {
        lemma_bits_value_concat(a.drop_first(), b);
        assert((a + b).drop_first() =~= a.drop_first() + b);
        assert((a + b)[0] == a[0]);
        lemma_pow2_unfold(a.len());
        assert(bits_value(a + b) == (if a[0] {
            1nat
        } else {
            0nat
        }) + 2 * (bits_value(a.drop_first()) + bits_value(b) * pow2((a.len() - 1) as nat)));
        assert(2 * (bits_value(a.drop_first()) + bits_value(b) * pow2((a.len() - 1) as nat))
            == 2 * bits_value(a.drop_first()) + bits_value(b) * (2 * pow2(
            (a.len() - 1) as nat,
        ))) by (nonlinear_arith);
    }
}

/// An 8-bit string is recovered from its value.
pub proof fn lemma_byte_bits_of_value(c: Seq<bool>)
    requires
        c.len() == 8,
    ensures
        bits_value(c) < 256,
        byte_bits(bits_value(c) as u8) == c,
{
    lemma_bits_value_bound(c);
    lemma2_to64();
    assert forall|i: int| 0 <= i < 8 implies byte_bits(bits_value(c) as u8)[i] == c[i] by {
        lemma_nth_bit_of_value(c, i as nat);
    }
    assert(byte_bits(bits_value(c) as u8) =~= c);
}

/// A bit string shorter than 8 bits padded with zeroes to a full byte keeps
/// its value.
pub proof fn lemma_bits_value_pad(c: Seq<bool>, k: nat)
    ensures
        bits_value(c + falses(k)) == bits_value(c),
    decreases c.len(),
{
    if c.len() == 0 {
        assert(c + falses(k) =~= falses(k));
        lemma_falses_value(k);
    } else {
        lemma_bits_value_pad(c.drop_first(), k);
        assert((c + falses(k)).drop_first() =~= c.drop_first() + falses(k));
        assert((c + falses(k))[0] == c[0]);
    }
}

/// A run of `k` zero bits.
pub open spec fn falses(k: nat) -> Seq<bool> {
    Seq::new(k, |i: int| false)
}

/// The `w` low bits of `x`, least significant first.
pub open spec fn low_bits(x: nat, w: nat) -> Seq<bool> {
    Seq::new(w, |i: int| nth_bit(x, i as nat))
}

pub proof fn lemma_byte_bits_low(b: u8)
    ensures
        byte_bits(b) == low_bits(b as nat, 8),
{
    assert(byte_bits(b) =~= low_bits(b as nat, 8));
}

/// A bit string is recovered from its value and length.
pub proof fn lemma_low_bits_of_value(c: Seq<bool>)
    ensures
        low_bits(bits_value(c), c.len()) == c,
{
    assert forall|i: int| 0 <= i < c.len() implies low_bits(bits_value(c), c.len())[i] == c[i] by {
        lemma_nth_bit_of_value(c, i as nat);
    }
    assert(low_bits(bits_value(c), c.len()) =~= c);
}

pub proof fn lemma_nth_bit_div2(n: nat, i: nat)
    ensures
        nth_bit(n / 2, i) == nth_bit(n, i + 1),
{
    lemma_pow2_unfold(i + 1);
    lemma_pow2_pos(i);
    lemma_div_denominator(n as int, 2, pow2(i) as int);
    assert(n as int / (2 * pow2(i) as int) == (n / 2) as int / pow2(i) as int);
}

/// The value of the `w` low bits of a number below `2^w` is the number.
pub proof fn lemma_low_bits_value(x: nat, w: nat)
    requires
        x < pow2(w),
    ensures
        bits_value(low_bits(x, w)) == x,
    decreases w,
{
    lemma2_to64();
    if w == 0 {
    } else {
        lemma_pow2_unfold(w);
        assert(x / 2 < pow2((w - 1) as nat)) by {
            vstd::arithmetic::div_mod::lemma_fundamental_div_mod(x as int, 2);
        }
        lemma_low_bits_value(x / 2, (w - 1) as nat);
        assert(low_bits(x, w).drop_first() =~= low_bits(x / 2, (w - 1) as nat)) by {
            assert forall|i: int| 0 <= i < w - 1 implies low_bits(x, w).drop_first()[i]
                == low_bits(x / 2, (w - 1) as nat)[i] by {
                lemma_nth_bit_div2(x, i as nat);
            }
        }
        assert(nth_bit(x, 0) == (x % 2 == 1)) by {
            assert(x / pow2(0) == x);
        }
        vstd::arithmetic::div_mod::lemma_fundamental_div_mod(x as int, 2);
        assert(bits_value(low_bits(x, w)) == (if nth_bit(x, 0) {
            1nat
        } else {
            0nat
        }) + 2 * (x / 2));
    }
}

/// The value of a byte's bits is the byte.
pub proof fn lemma_byte_bits_value(b: u8)
    ensures
        bits_value(byte_bits(b)) == b,
{
    lemma_byte_bits_low(b);
    lemma2_to64();
    lemma_low_bits_value(b as nat, 8);
}

/// Each byte of a sequence appears as the corresponding 8-bit slice.
pub proof fn lemma_bytes_bits_index(s: Seq<u8>, k: int)
    requires
        0 <= k < s.len(),
    ensures
        bytes_bits(s).subrange(8 * k, 8 * k + 8) == byte_bits(s[k]),
    decreases s.len(),
{
    lemma_bytes_bits_len(s);
    lemma_bytes_bits_len(s.drop_last());
    if k == s.len() - 1 {
        assert(bytes_bits(s).subrange(8 * k, 8 * k + 8) =~= byte_bits(s.last()));
    } else {
        lemma_bytes_bits_index(s.drop_last(), k);
        assert(bytes_bits(s).subrange(8 * k, 8 * k + 8) =~= bytes_bits(s.drop_last()).subrange(
            8 * k,
            8 * k + 8,
        ));
    }
}

/// Byte sequences of equal length with the same bits are equal.
pub proof fn lemma_bytes_bits_inj(a: Seq<u8>, b: Seq<u8>)
    requires
        a.len() == b.len(),
        bytes_bits(a) == bytes_bits(b),
    ensures
        a == b,
{
    assert forall|k: int| 0 <= k < a.len() implies a[k] == b[k] by {
        lemma_bytes_bits_index(a, k);
        lemma_bytes_bits_index(b, k);
        assert(byte_bits(a[k]) == byte_bits(b[k]));
        lemma_byte_bits_value(a[k]);
        lemma_byte_bits_value(b[k]);
    }
    assert(a =~= b);
}

pub proof fn lemma_falses_value(k: nat)
    ensures
        bits_value(falses(k)) == 0,
    decreases k,
{
    if k > 0 {
        lemma_falses_value((k - 1) as nat);
        assert(falses(k).drop_first() =~= falses((k - 1) as nat));
    }
}

} // verus!
