//! The bit writer: accumulates variable-width values into a byte buffer,
//! packing big-endian and completing bytes as they fill.

use vstd::prelude::*;
use vstd::arithmetic::power2::{pow2, lemma_pow2_unfold, lemma_pow2_strictly_increases, lemma2_to64};
use crate::bits::{
    stream_bits, nat_bits, bytes_of_bits, lemma_nat_bits_len, lemma_stream_bits_push,
    lemma_bytes_of_stream,
};

verus! {

/// Collects bits most-significant-first into a growing byte buffer; fewer
/// than eight pending bits wait in a sub-byte accumulator.
pub struct BitWriter {
    bytes: Vec<u8>,
    acc: u8,
    nacc: usize,
}

impl BitWriter {
    /// Every bit handed to the writer so far, in order.
    pub closed spec fn written(self) -> Seq<bool> {
        stream_bits(self.bytes@) + nat_bits(self.acc as nat, self.nacc as nat)
    }

    /// The accumulator holds fewer than eight bits and no stray high bits.
    pub closed spec fn wf(self) -> bool {
        &&& self.nacc < 8
        &&& (self.acc as nat) < pow2(self.nacc as nat)
    }

    /// An empty writer.
    pub fn new() -> (r: BitWriter)
        ensures
            r.wf(),
            r.written() == Seq::<bool>::empty(),
    {
        proof {
            lemma2_to64();
        }
        let w = BitWriter { bytes: Vec::new(), acc: 0, nacc: 0 };
        proof {
            assert(w.written() =~= Seq::<bool>::empty());
        }
        w
    }

    /// Appends one bit.
    fn push_bit(&mut self, b: bool)
        requires
            old(self).wf(),
        ensures
            final(self).wf(),
            final(self).written() == old(self).written().push(b),
    {
        let bitval: u8 = if b {
            1
        } else {
            0
        };
        proof {
            lemma2_to64();
            if (old(self).nacc as nat) < 7 {
                lemma_pow2_strictly_increases(old(self).nacc as nat, 7);
            }
        }
        let newacc = 2 * self.acc + bitval;
        proof {
            assert(newacc as nat / 2 == self.acc as nat);
            assert((newacc as nat % 2 == 1) == b);
            assert(nat_bits(newacc as nat, (self.nacc + 1) as nat) == nat_bits(
                self.acc as nat,
                self.nacc as nat,
            ).push(b));
        }
        if self.nacc == 7 {
            let ghost oldbytes = self.bytes@;
            self.bytes.push(newacc);
            self.acc = 0;
            self.nacc = 0;
            proof {
                lemma_stream_bits_push(oldbytes, newacc);
                assert(nat_bits(0, 0) =~= Seq::<bool>::empty());
                assert(self.written() =~= old(self).written().push(b));
            }
        } else {
            self.acc = newacc;
            self.nacc = self.nacc + 1;
            proof {
                assert(self.written() =~= old(self).written().push(b));
            }
        }
    }

    /// Appends the low `n` bits of `value`, most significant of the `n`
    /// first.
    pub fn write(&mut self, value: u16, n: usize)
        requires
            old(self).wf(),
            n <= 16,
            (value as nat) < pow2(n as nat),
        ensures
            final(self).wf(),
            final(self).written() == old(self).written() + nat_bits(value as nat, n as nat),
        decreases n,
    {
        if n == 0 {
            proof {
                assert(old(self).written() + nat_bits(value as nat, 0) =~= old(self).written());
            }
            return ;
        }
        proof {
            lemma_pow2_unfold(n as nat);
        }
        self.write(value / 2, n - 1);
        self.push_bit(value % 2 == 1);
        proof {
            assert(nat_bits(value as nat, n as nat) == nat_bits(
                value as nat / 2,
                (n - 1) as nat,
            ).push(value as nat % 2 == 1));
            assert(self.written() =~= old(self).written() + nat_bits(value as nat, n as nat));
        }
    }

    /// Hands back the completed bytes.  A trailing group of fewer than eight
    /// pending bits is dropped; in this codec those bits are always the zero
    /// padding a left-justified tail symbol introduced.
    pub fn into_bytes(self) -> (r: Vec<u8>)
        requires
            self.wf(),
        ensures
            r@ == bytes_of_bits(self.written()),
    {
        proof {
            lemma_nat_bits_len(self.acc as nat, self.nacc as nat);
            lemma_bytes_of_stream(self.bytes@, nat_bits(self.acc as nat, self.nacc as nat));
        }
        self.bytes
    }
}

} // verus!
