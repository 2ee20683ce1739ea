//! The bit reader: a forward-only cursor over a byte sequence viewed as a
//! big-endian bit stream.

use vstd::prelude::*;
use vstd::arithmetic::power2::{pow2, lemma_pow2_strictly_increases, lemma2_to64};
use crate::bits::{bit_at, stream_bits, bits_value, pow2_u8};
use crate::CodecError;

verus! {

/// Walks the bits of a byte sequence from the front, most significant bit of
/// byte 0 first.  Strictly forward: no seeking, no rewinding.
pub struct BitReader<'a> {
    bytes: &'a [u8],
    pos: usize,
}

impl<'a> BitReader<'a> {
    /// The whole bit stream under the reader.
    pub closed spec fn stream(self) -> Seq<bool> {
        stream_bits(self.bytes@)
    }

    /// The bit cursor: how many bits have been consumed.
    pub closed spec fn cursor(self) -> int {
        self.pos as int
    }

    /// The cursor never passes the end of the stream.
    pub closed spec fn wf(self) -> bool {
        self.pos <= self.stream().len()
    }

    /// A reader over `bytes` with the cursor at the first bit.
    pub fn new(bytes: &'a [u8]) -> (r: BitReader<'a>)
        ensures
            r.stream() == stream_bits(bytes@),
            r.cursor() == 0,
            r.wf(),
    {
        BitReader { bytes, pos: 0 }
    }

    /// How many bits remain between the cursor and the end of the stream.
    pub fn bits_remaining(&self) -> (n: usize)
        requires
            self.wf(),
            self.stream().len() <= usize::MAX,
        ensures
            n == self.stream().len() - self.cursor(),
    {
        self.bytes.len() * 8 - self.pos
    }

    /// Reads the next `n` bits as an unsigned value, most significant bit
    /// first, advancing the cursor by `n`; `EndOfStream`, with the cursor
    /// unmoved, exactly when fewer than `n` bits remain.
    pub fn read(&mut self, n: usize) -> (r: Result<u16, CodecError>)
        requires
            old(self).wf(),
            1 <= n <= 16,
            old(self).stream().len() <= usize::MAX,
        ensures
            final(self).stream() == old(self).stream(),
            final(self).wf(),
            if n <= old(self).stream().len() - old(self).cursor() {
                match r {
                    Ok(v) => {
                        &&& v as nat == bits_value(
                            old(self).stream().subrange(
                                old(self).cursor(),
                                old(self).cursor() + n,
                            ),
                        )
                        &&& (v as nat) < pow2(n as nat)
                        &&& final(self).cursor() == old(self).cursor() + n
                    },
                    Err(_) => false,
                }
            } else {
                &&& r == Err::<u16, CodecError>(CodecError::EndOfStream)
                &&& final(self).cursor() == old(self).cursor()
            },
    {
        let remaining = self.bytes.len() * 8 - self.pos;
        if n > remaining {
            return Err(CodecError::EndOfStream);
        }
        let ghost start: int = self.pos as int;
        let ghost whole: Seq<bool> = self.stream();
        let mut acc: u16 = 0;
        let mut j: usize = 0;
        proof {
            lemma2_to64();
            assert(whole.subrange(start, start) =~= Seq::<bool>::empty());
        }
        while j < n
            invariant
                j <= n,
                1 <= n <= 16,
                self.bytes == old(self).bytes,
                whole == self.stream(),
                0 <= start,
                self.pos == start + j,
                start + n <= whole.len(),
                whole.len() <= usize::MAX,
                acc as nat == bits_value(whole.subrange(start, start + j)),
                (acc as nat) < pow2(j as nat),
                pow2(15) == 32768,
                pow2(16) == 65536,
            decreases n - j,
        {
            let byte = self.bytes[self.pos / 8];
            let off = self.pos % 8;
            let d = pow2_u8(7 - off);
            let bit: u8 = (byte / d) % 2;
            proof {
                assert(whole[start + j] == bit_at(self.bytes@[(start + j) / 8], (start + j) % 8));
                assert((bit == 1) == bit_at(self.bytes@[(start + j) / 8], (start + j) % 8));
                if ((j + 1) as nat) < 16 {
                    lemma_pow2_strictly_increases((j + 1) as nat, 16);
                }
                assert(2 * (acc as nat) + 1 < pow2((j + 1) as nat)) by {
                    vstd::arithmetic::power2::lemma_pow2_unfold((j + 1) as nat);
                }
                let prefix = whole.subrange(start, start + j);
                let next = whole.subrange(start, start + j + 1);
                assert(next.drop_last() =~= prefix);
                assert(next.last() == whole[start + j]);
                assert(bits_value(next) == 2 * bits_value(prefix) + (if whole[start + j] {
                    1nat
                } else {
                    0nat
                }));
            }
            acc = 2 * acc + (bit as u16);
            self.pos = self.pos + 1;
            j += 1;
        }
        Ok(acc)
    }
}

} // verus!
