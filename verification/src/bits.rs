//! The mathematical model of big-endian bit streams.
//!
//! A byte sequence is read as a stream of bits, most significant bit of byte 0
//! first.  `bits_value` gives the unsigned value of a bit group read in that
//! order, and `nat_bits` is its inverse: the `n`-bit big-endian rendering of a
//! value.  `bytes_of_bits` packs a bit stream back into bytes, dropping a
//! trailing group of fewer than eight bits.

use vstd::prelude::*;
use vstd::arithmetic::power2::{pow2, lemma_pow2_unfold, lemma_pow2_pos, lemma2_to64};
use vstd::arithmetic::div_mod::lemma_div_denominator;

verus! {

/// Bit `i` of byte `b`, counting the most significant bit as bit 0.
pub open spec fn bit_at(b: u8, i: int) -> bool
    recommends
        0 <= i < 8,
{
    ((b as nat) / pow2((7 - i) as nat)) % 2 == 1
}

/// The bytes of `bytes` as one logical bit stream, big-endian.
pub open spec fn stream_bits(bytes: Seq<u8>) -> Seq<bool> {
    Seq::new(bytes.len() * 8, |i: int| bit_at(bytes[i / 8], i % 8))
}

/// The unsigned value of a bit group, first bit most significant.
pub open spec fn bits_value(bits: Seq<bool>) -> nat
    decreases bits.len(),
{
    if bits.len() == 0 {
        0
    } else {
        2 * bits_value(bits.drop_last()) + (if bits.last() {
            1nat
        } else {
            0nat
        })
    }
}

/// The `n`-bit big-endian rendering of `v % pow2(n)`.
pub open spec fn nat_bits(v: nat, n: nat) -> Seq<bool>
    decreases n,
{
    if n == 0 {
        Seq::<bool>::empty()
    } else {
        nat_bits(v / 2, (n - 1) as nat).push(v % 2 == 1)
    }
}

/// A run of `n` zero bits.
pub open spec fn zero_bits(n: nat) -> Seq<bool> {
    Seq::new(n, |i: int| false)
}

/// The bytes whose bits spell `bits`; a trailing group of fewer than eight
/// bits is dropped.
pub open spec fn bytes_of_bits(bits: Seq<bool>) -> Seq<u8>
    decreases bits.len(),
{
    if bits.len() < 8 {
        Seq::<u8>::empty()
    } else {
        seq![bits_value(bits.take(8)) as u8] + bytes_of_bits(bits.skip(8))
    }
}

/// The power of two `pow2(k)` for `k < 8`, as a byte.
pub fn pow2_u8(k: usize) -> (r: u8)
    requires
        k < 8,
    ensures
        r as nat == pow2(k as nat),
        r >= 1,
{
    proof {
        lemma2_to64();
    }
    if k == 0 {
        1
    } else if k == 1 {
        2
    } else if k == 2 {
        4
    } else if k == 3 {
        8
    } else if k == 4 {
        16
    } else if k == 5 {
        32
    } else if k == 6 {
        64
    } else {
        128
    }
}

pub proof fn lemma_nat_bits_len(v: nat, n: nat)
    ensures
        nat_bits(v, n).len() == n,
    decreases n,
{
    if n > 0 {
        lemma_nat_bits_len(v / 2, (n - 1) as nat);
    }
}

/// A bit group of length `n` has a value below `pow2(n)`.
pub proof fn lemma_bits_value_bound(bits: Seq<bool>)
    ensures
        bits_value(bits) < pow2(bits.len()),
    decreases bits.len(),
{
    if bits.len() == 0 {
        assert(pow2(0) == 1) by {
            lemma2_to64();
        }
    } else {
        lemma_bits_value_bound(bits.drop_last());
        lemma_pow2_unfold(bits.len());
    }
}

/// Rendering the value of a group at its own length gives the group back.
pub proof fn lemma_nat_bits_of_value(bits: Seq<bool>)
    ensures
        nat_bits(bits_value(bits), bits.len()) == bits,
    decreases bits.len(),
{
    if bits.len() == 0 {
        assert(nat_bits(bits_value(bits), 0) =~= bits);
    } else {
        let front = bits.drop_last();
        let v = bits_value(bits);
        let b: nat = if bits.last() {
            1
        } else {
            0
        };
        assert(v == 2 * bits_value(front) + b);
        assert(v / 2 == bits_value(front));
        assert(v % 2 == b);
        lemma_nat_bits_of_value(front);
        assert(nat_bits(v, bits.len()) =~= bits);
    }
}

/// Taking the value of an `n`-bit rendering gives the value back.
pub proof fn lemma_value_of_nat_bits(v: nat, n: nat)
    requires
        v < pow2(n),
    ensures
        bits_value(nat_bits(v, n)) == v,
    decreases n,
{
    if n == 0 {
        assert(pow2(0) == 1) by {
            lemma2_to64();
        }
    } else {
        lemma_pow2_unfold(n);
        lemma_value_of_nat_bits(v / 2, (n - 1) as nat);
        let s = nat_bits(v, n);
        lemma_nat_bits_len(v / 2, (n - 1) as nat);
        assert(s.drop_last() =~= nat_bits(v / 2, (n - 1) as nat));
        assert(s.last() == (v % 2 == 1));
    }
}

/// Bit `j` of the `n`-bit rendering of `v`, counting from the most
/// significant end.
pub proof fn lemma_nat_bits_index(v: nat, n: nat, j: int)
    requires
        0 <= j < n,
    ensures
        nat_bits(v, n)[j] == ((v / pow2((n - 1 - j) as nat)) % 2 == 1),
    decreases n,
{
    lemma_nat_bits_len(v / 2, (n - 1) as nat);
    if j == n - 1 {
        assert(pow2(0) == 1) by {
            lemma2_to64();
        }
        assert(nat_bits(v, n)[j] == (v % 2 == 1));
        assert((n - 1 - j) as nat == 0);
        assert(v / 1 == v);
        assert((v / pow2((n - 1 - j) as nat)) % 2 == v % 2);
    } else {
        lemma_nat_bits_index(v / 2, (n - 1) as nat, j);
        assert(nat_bits(v, n)[j] == nat_bits(v / 2, (n - 1) as nat)[j]);
        let k = (n - 2 - j) as nat;
        lemma_pow2_pos(k);
        lemma_div_denominator(v as int, 2, pow2(k) as int);
        lemma_pow2_unfold((k + 1) as nat);
        assert(pow2(k + 1) == 2 * pow2(k));
        assert((v / 2) / pow2(k) == v / pow2(k + 1));
        assert(nat_bits(v, n)[j] == ((v / pow2(k + 1)) % 2 == 1));
        assert((n - 1 - j) as nat == k + 1);
        assert(pow2((n - 1 - j) as nat) == pow2(k + 1));
    }
}

/// The eight bits of a byte are the byte's 8-bit rendering.
pub proof fn lemma_byte_bits(b: u8)
    ensures
        Seq::new(8, |i: int| bit_at(b, i)) == nat_bits(b as nat, 8),
{
    lemma_nat_bits_len(b as nat, 8);
    assert forall|j: int| 0 <= j < 8 implies Seq::new(8, |i: int| bit_at(b, i))[j] == nat_bits(
        b as nat,
        8,
    )[j] by {
        lemma_nat_bits_index(b as nat, 8, j);
    }
    assert(Seq::new(8, |i: int| bit_at(b, i)) =~= nat_bits(b as nat, 8));
}

/// Appending a byte to the stream appends its eight bits.
pub proof fn lemma_stream_bits_push(bytes: Seq<u8>, b: u8)
    ensures
        stream_bits(bytes.push(b)) == stream_bits(bytes) + nat_bits(b as nat, 8),
{
    lemma_byte_bits(b);
    lemma_nat_bits_len(b as nat, 8);
    assert(stream_bits(bytes.push(b)) =~= stream_bits(bytes) + nat_bits(b as nat, 8)) by {
        assert forall|i: int| 0 <= i < bytes.len() * 8 + 8 implies stream_bits(bytes.push(b))[i]
            == (stream_bits(bytes) + nat_bits(b as nat, 8))[i] by {
            if i < bytes.len() * 8 {
                assert(bytes.push(b)[i / 8] == bytes[i / 8]);
            } else {
                assert(i / 8 == bytes.len());
                assert(bytes.push(b)[i / 8] == b);
                assert(nat_bits(b as nat, 8)[i - bytes.len() * 8] == bit_at(
                    b,
                    i - bytes.len() * 8,
                )) by {
                    assert(Seq::new(8, |k: int| bit_at(b, k))[i - bytes.len() * 8] == bit_at(
                        b,
                        i - bytes.len() * 8,
                    ));
                }
                assert(i % 8 == i - bytes.len() * 8);
            }
        }
    }
}

/// The value of a concatenation: the left part is shifted past the right.
pub proof fn lemma_bits_value_concat(a: Seq<bool>, b: Seq<bool>)
    ensures
        bits_value(a + b) == bits_value(a) * pow2(b.len()) + bits_value(b),
    decreases b.len(),
{
    if b.len() == 0 {
        assert(a + b =~= a);
        assert(pow2(0) == 1) by {
            lemma2_to64();
        }
    } else {
        let front = b.drop_last();
        lemma_bits_value_concat(a, front);
        assert((a + b).drop_last() =~= a + front);
        assert((a + b).last() == b.last());
        lemma_pow2_unfold(b.len());
        assert(2 * (bits_value(a) * pow2(front.len())) == bits_value(a) * pow2(b.len())) by {
            assert(pow2(b.len()) == 2 * pow2(front.len()));
            assert(2 * (bits_value(a) * pow2(front.len())) == bits_value(a) * (2 * pow2(
                front.len(),
            ))) by (nonlinear_arith);
        }
    }
}

/// Left-justifying a value by `k` bits renders as the value followed by `k`
/// zero bits.
pub proof fn lemma_nat_bits_shift(v: nat, n: nat, k: nat)
    requires
        v < pow2(n),
    ensures
        nat_bits(v * pow2(k), n + k) == nat_bits(v, n) + zero_bits(k),
    decreases k,
{
    if k == 0 {
        assert(pow2(0) == 1) by {
            lemma2_to64();
        }
        assert(v * 1 == v);
        assert(nat_bits(v, n) + zero_bits(0) =~= nat_bits(v, n));
    } else {
        let w = v * pow2((k - 1) as nat);
        assert(v * pow2(k) == 2 * w) by {
            lemma_pow2_unfold(k);
            assert(v * (2 * pow2((k - 1) as nat)) == 2 * (v * pow2((k - 1) as nat)))
                by (nonlinear_arith);
        }
        assert((2 * w) / 2 == w);
        assert((2 * w) % 2 == 0);
        lemma_nat_bits_shift(v, n, (k - 1) as nat);
        lemma_nat_bits_len(v, n);
        lemma_nat_bits_len(w, (n + k - 1) as nat);
        assert(nat_bits(v * pow2(k), n + k) == nat_bits(w, (n + k - 1) as nat).push(false));
        assert(nat_bits(w, (n + k - 1) as nat).push(false) =~= nat_bits(v, n) + zero_bits(k)) by {
            assert(zero_bits((k - 1) as nat).push(false) =~= zero_bits(k));
            assert((nat_bits(v, n) + zero_bits((k - 1) as nat)).push(false) =~= nat_bits(v, n)
                + zero_bits(k));
        }
    }
}

/// Packing a byte stream's bits, plus a short trailing remainder, gives the
/// bytes back: the remainder is dropped.
pub proof fn lemma_bytes_of_stream(bytes: Seq<u8>, rest: Seq<bool>)
    ensures
        rest.len() < 8 ==> bytes_of_bits(stream_bits(bytes) + rest) == bytes,
    decreases bytes.len(),
{
    if rest.len() < 8 {
        let all = stream_bits(bytes) + rest;
        if bytes.len() == 0 {
            assert(all.len() < 8);
            assert(bytes_of_bits(all) =~= bytes);
        } else {
            let first = bytes[0];
            assert(all.len() >= 8);
            assert(all.take(8) =~= Seq::new(8, |i: int| bit_at(first, i))) by {
                assert forall|i: int| 0 <= i < 8 implies all[i] == bit_at(first, i) by {
                    assert(i / 8 == 0 && i % 8 == i);
                }
            }
            lemma_byte_bits(first);
            assert(pow2(8) == 256) by {
                lemma2_to64();
            }
            lemma_value_of_nat_bits(first as nat, 8);
            assert(bits_value(all.take(8)) == first as nat);
            let tail = bytes.skip(1);
            assert(all.skip(8) =~= stream_bits(tail) + rest) by {
                assert forall|i: int| 0 <= i < all.len() - 8 implies all[i + 8] == (stream_bits(
                    tail,
                ) + rest)[i] by {
                    if i < tail.len() * 8 {
                        assert((i + 8) / 8 == i / 8 + 1);
                        assert((i + 8) % 8 == i % 8);
                        assert(bytes[(i + 8) / 8] == tail[i / 8]);
                    }
                }
            }
            lemma_bytes_of_stream(tail, rest);
            assert(bytes_of_bits(all) == seq![first] + bytes_of_bits(all.skip(8)));
            assert(seq![first] + tail =~= bytes);
        }
    }
}

} // verus!
