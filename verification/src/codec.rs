//! The encoder and decoder, and the codec's laws.
//!
//! Encoding packs the input bytes big-endian into 11-bit symbols rendered
//! through the primary table; a leftover group of `1..=6` bits is
//! left-justified to six bits and rendered through the tail table, one of
//! `7..=10` bits is left-justified to eleven bits and rendered through the
//! primary table (the dual-alphabet tail policy).  Decoding reverses this:
//! two characters at a time through the primary table into 11-bit writes,
//! an odd final character through the tail table into a 6-bit write, and the
//! written bits packed back to bytes, dropping the sub-byte zero padding the
//! left-justified tail introduced.

use vstd::prelude::*;
use vstd::arithmetic::power2::{pow2, lemma_pow2_adds, lemma_pow2_pos, lemma2_to64};
use vstd::arithmetic::div_mod::lemma_fundamental_div_mod;
use vstd::pervasive::unreached;
use crate::bits::{
    stream_bits, bits_value, nat_bits, zero_bits, bytes_of_bits, pow2_u8, lemma_bits_value_bound,
    lemma_nat_bits_of_value, lemma_nat_bits_shift, lemma_nat_bits_len, lemma_bytes_of_stream,
};
use crate::table::{AlphabetTable, has_token, token_index, lemma_token_index_unique};
use crate::reader::BitReader;
use crate::writer::BitWriter;
use crate::CodecError;

verus! {

/// How many complete 11-bit groups `len` bytes hold.
pub open spec fn full_groups(len: nat) -> nat {
    (len * 8) / 11
}

/// How many bits are left over after the complete groups.
pub open spec fn tail_len(len: nat) -> nat {
    (len * 8) % 11
}

/// The value of the `g`-th 11-bit group of `bytes`.
pub open spec fn group_value(bytes: Seq<u8>, g: int) -> nat
    recommends
        0 <= g < full_groups(bytes.len()),
{
    bits_value(stream_bits(bytes).subrange(11 * g, 11 * g + 11))
}

/// The value of the leftover bits, before left-justification.
pub open spec fn tail_value(bytes: Seq<u8>) -> nat {
    bits_value(stream_bits(bytes).skip(11 * (full_groups(bytes.len()) as int)))
}

/// The first `g` group tokens, concatenated.
pub open spec fn group_tokens(p: Seq<Seq<char>>, bytes: Seq<u8>, g: nat) -> Seq<char>
    decreases g,
{
    if g == 0 {
        Seq::<char>::empty()
    } else {
        group_tokens(p, bytes, (g - 1) as nat) + p[group_value(bytes, g - 1) as int]
    }
}

/// The trailing symbol: absent when the bit count divides evenly; a
/// tail-table token for one to six leftover bits; a primary token for seven
/// to ten.
pub open spec fn tail_token(p: Seq<Seq<char>>, t: Seq<Seq<char>>, bytes: Seq<u8>) -> Seq<char> {
    let tb = tail_len(bytes.len());
    if tb == 0 {
        Seq::<char>::empty()
    } else if tb <= 6 {
        t[(tail_value(bytes) * pow2((6 - tb) as nat)) as int]
    } else {
        p[(tail_value(bytes) * pow2((11 - tb) as nat)) as int]
    }
}

/// What encoding renders: every full group's token, then the tail symbol.
pub open spec fn spec_encode(p: Seq<Seq<char>>, t: Seq<Seq<char>>, bytes: Seq<u8>) -> Seq<char> {
    group_tokens(p, bytes, full_groups(bytes.len())) + tail_token(p, t, bytes)
}

/// The two-character token at pair position `i`.
pub open spec fn pair_at(s: Seq<char>, i: int) -> Seq<char> {
    s.subrange(2 * i, 2 * i + 2)
}

/// Whether every token of `s` is known: each two-character pair to the
/// primary table and, for odd length, the final character to the tail table.
pub open spec fn decode_ok(p: Seq<Seq<char>>, t: Seq<Seq<char>>, s: Seq<char>) -> bool {
    &&& forall|i: int| 0 <= i < s.len() / 2 ==> has_token(p, #[trigger] pair_at(s, i))
    &&& (s.len() % 2 == 1 ==> has_token(t, seq![s.last()]))
}

/// The bits the first `k` pairs decode to: eleven per pair.
pub open spec fn pairs_bits(p: Seq<Seq<char>>, s: Seq<char>, k: nat) -> Seq<bool>
    decreases k,
{
    if k == 0 {
        Seq::<bool>::empty()
    } else {
        pairs_bits(p, s, (k - 1) as nat) + nat_bits(
            token_index(p, pair_at(s, k - 1)) as nat,
            11,
        )
    }
}

/// All bits the decoder writes for `s`: the pairs, then six bits for an odd
/// final character.
pub open spec fn decoded_bits(p: Seq<Seq<char>>, t: Seq<Seq<char>>, s: Seq<char>) -> Seq<bool> {
    pairs_bits(p, s, s.len() / 2) + if s.len() % 2 == 1 {
        nat_bits(token_index(t, seq![s.last()]) as nat, 6)
    } else {
        Seq::<bool>::empty()
    }
}

/// What decoding returns on success: the written bits packed to bytes, a
/// trailing partial byte of padding dropped.
pub open spec fn spec_decode(p: Seq<Seq<char>>, t: Seq<Seq<char>>, s: Seq<char>) -> Seq<u8> {
    bytes_of_bits(decoded_bits(p, t, s))
}

/// Encodes `input` through a primary table of at least 2048 entries and a
/// tail table of at least 64: the token of every complete 11-bit group, then
/// the left-justified tail symbol.
pub fn encode(primary: &AlphabetTable, tail: &AlphabetTable, input: &[u8]) -> (r: String)
    requires
        primary.size() >= 2048,
        tail.size() >= 64,
        input@.len() * 8 <= usize::MAX,
    ensures
        r@ == spec_encode(primary.tokens_view(), tail.tokens_view(), input@),
{
    let ghost p = primary.tokens_view();
    let ghost t = tail.tokens_view();
    let mut out = String::new();
    let mut reader = BitReader::new(input);
    let total_bits: usize = input.len() * 8;
    let fullg: usize = total_bits / 11;
    let tb: usize = total_bits % 11;
    proof {
        lemma2_to64();
    }
    let mut g: usize = 0;
    while g < fullg
        invariant
            g <= fullg,
            fullg == full_groups(input@.len()),
            tb == tail_len(input@.len()),
            total_bits == input@.len() * 8,
            total_bits <= usize::MAX,
            reader.stream() == stream_bits(input@),
            reader.wf(),
            reader.cursor() == 11 * g,
            out@ == group_tokens(p, input@, g as nat),
            p == primary.tokens_view(),
            t == tail.tokens_view(),
            primary.size() >= 2048,
            tail.size() >= 64,
            pow2(11) == 2048,
        decreases fullg - g,
    {
        let v = match reader.read(11) {
            Ok(v) => v,
            Err(_) => unreached(),
        };
        proof {
            assert(v as nat == group_value(input@, g as int));
        }
        let tok = match primary.token_at(v as usize) {
            Ok(tok) => tok,
            Err(_) => unreached(),
        };
        out.append(tok.as_str());
        proof {
            assert(out@ == group_tokens(p, input@, (g + 1) as nat));
        }
        g += 1;
    }
    if tb == 0 {
        proof {
            assert(out@ =~= spec_encode(p, t, input@));
        }
        return out;
    }
    let v = match reader.read(tb) {
        Ok(v) => v,
        Err(_) => unreached(),
    };
    proof {
        assert(stream_bits(input@).subrange(11 * (fullg as int), 11 * (fullg as int) + tb as int)
            =~= stream_bits(input@).skip(11 * (fullg as int)));
        assert(v as nat == tail_value(input@));
    }
    if tb <= 6 {
        let m = pow2_u8(6 - tb);
        proof {
            lemma_pow2_adds(tb as nat, (6 - tb) as nat);
            lemma_pow2_pos((6 - tb) as nat);
            assert((v as nat) * (m as nat) < pow2(6)) by (nonlinear_arith)
                requires
                    (v as nat) < pow2(tb as nat),
                    m as nat == pow2((6 - tb) as nat),
                    pow2(tb as nat) * pow2((6 - tb) as nat) == pow2(6),
                    m >= 1,
            ;
        }
        let shifted: u16 = v * (m as u16);
        let tok = match tail.token_at(shifted as usize) {
            Ok(tok) => tok,
            Err(_) => unreached(),
        };
        out.append(tok.as_str());
        proof {
            assert(shifted as nat == tail_value(input@) * pow2((6 - tb) as nat));
            assert(out@ == spec_encode(p, t, input@));
        }
        out
    } else {
        let m = pow2_u8(11 - tb);
        proof {
            lemma_pow2_adds(tb as nat, (11 - tb) as nat);
            lemma_pow2_pos((11 - tb) as nat);
            assert((v as nat) * (m as nat) < pow2(11)) by (nonlinear_arith)
                requires
                    (v as nat) < pow2(tb as nat),
                    m as nat == pow2((11 - tb) as nat),
                    pow2(tb as nat) * pow2((11 - tb) as nat) == pow2(11),
                    m >= 1,
            ;
        }
        let shifted: u16 = v * (m as u16);
        let tok = match primary.token_at(shifted as usize) {
            Ok(tok) => tok,
            Err(_) => unreached(),
        };
        out.append(tok.as_str());
        proof {
            assert(shifted as nat == tail_value(input@) * pow2((11 - tb) as nat));
            assert(out@ == spec_encode(p, t, input@));
        }
        out
    }
}

/// Decodes `input`: pairs of characters through the primary table as 11-bit
/// groups, an odd final character through the tail table as a 6-bit group,
/// the bits packed back to bytes.  `UnknownSymbol` exactly when some token
/// of `input` is absent from its table; no bytes are handed out then.
pub fn decode(primary: &AlphabetTable, tail: &AlphabetTable, input: &str) -> (r: Result<
    Vec<u8>,
    CodecError,
>)
    requires
        primary.wf(),
        tail.wf(),
        primary.size() <= 2048,
        tail.size() <= 64,
    ensures
        match r {
            Ok(out) => {
                &&& decode_ok(primary.tokens_view(), tail.tokens_view(), input@)
                &&& out@ == spec_decode(primary.tokens_view(), tail.tokens_view(), input@)
            },
            Err(e) => {
                &&& e == CodecError::UnknownSymbol
                &&& !decode_ok(primary.tokens_view(), tail.tokens_view(), input@)
            },
        },
{
    let ghost p = primary.tokens_view();
    let ghost t = tail.tokens_view();
    let len = input.unicode_len();
    let pairs = len / 2;
    let mut w = BitWriter::new();
    proof {
        lemma2_to64();
        assert(w.written() =~= pairs_bits(p, input@, 0));
    }
    let mut i: usize = 0;
    while i < pairs
        invariant
            i <= pairs,
            pairs == len / 2,
            len == input@.len(),
            w.wf(),
            w.written() == pairs_bits(p, input@, i as nat),
            p == primary.tokens_view(),
            t == tail.tokens_view(),
            primary.wf(),
            tail.wf(),
            primary.size() <= 2048,
            tail.size() <= 64,
            pow2(11) == 2048,
            forall|k: int| 0 <= k < i ==> has_token(p, #[trigger] pair_at(input@, k)),
        decreases pairs - i,
    {
        let chunk = input.substring_char(2 * i, 2 * i + 2);
        let v = match primary.index_of(chunk) {
            Ok(v) => v,
            Err(e) => {
                proof {
                    assert(chunk@ == pair_at(input@, i as int));
                    assert(!decode_ok(p, t, input@));
                }
                return Err(e);
            },
        };
        proof {
            assert(chunk@ == pair_at(input@, i as int));
            assert(v as nat == token_index(p, pair_at(input@, i as int)) as nat);
        }
        w.write(v as u16, 11);
        proof {
            assert(w.written() == pairs_bits(p, input@, (i + 1) as nat));
        }
        i += 1;
    }
    if len % 2 == 1 {
        let last = input.substring_char(len - 1, len);
        proof {
            assert(last@ =~= seq![input@.last()]);
        }
        let v = match tail.index_of(last) {
            Ok(v) => v,
            Err(e) => {
                proof {
                    assert(!decode_ok(p, t, input@));
                }
                return Err(e);
            },
        };
        proof {
            assert(pow2(6) == 64);
        }
        w.write(v as u16, 6);
        proof {
            assert(w.written() == decoded_bits(p, t, input@));
        }
        let out = w.into_bytes();
        proof {
            assert(decode_ok(p, t, input@));
        }
        Ok(out)
    } else {
        proof {
            assert(w.written() =~= decoded_bits(p, t, input@));
        }
        let out = w.into_bytes();
        proof {
            assert(decode_ok(p, t, input@));
        }
        Ok(out)
    }
}

/// The complete groups and the leftover account for every bit.
proof fn lemma_bit_totals(len: nat)
    ensures
        11 * full_groups(len) + tail_len(len) == len * 8,
        tail_len(len) < 11,
{
    lemma_fundamental_div_mod((len * 8) as int, 11);
}

/// The leftover value is below `pow2(tail_len)`, and its left-justified
/// symbol value is below the size of the table that renders it.
proof fn lemma_tail_bounds(bytes: Seq<u8>)
    ensures
        tail_value(bytes) < pow2(tail_len(bytes.len())),
        tail_len(bytes.len()) <= 6 ==> tail_value(bytes) * pow2(
            (6 - tail_len(bytes.len())) as nat,
        ) < pow2(6),
        0 < tail_len(bytes.len()) < 11 ==> nat_bits(
            tail_value(bytes) * pow2(
                if tail_len(bytes.len()) <= 6 {
                    (6 - tail_len(bytes.len())) as nat
                } else {
                    (11 - tail_len(bytes.len())) as nat
                },
            ),
            if tail_len(bytes.len()) <= 6 {
                6
            } else {
                11
            },
        ) == stream_bits(bytes).skip(11 * (full_groups(bytes.len()) as int)) + zero_bits(
            if tail_len(bytes.len()) <= 6 {
                (6 - tail_len(bytes.len())) as nat
            } else {
                (11 - tail_len(bytes.len())) as nat
            },
        ),
        6 < tail_len(bytes.len()) < 11 ==> tail_value(bytes) * pow2(
            (11 - tail_len(bytes.len())) as nat,
        ) < pow2(11),
{
    let tb = tail_len(bytes.len());
    let f = full_groups(bytes.len());
    lemma_bit_totals(bytes.len());
    let chunk = stream_bits(bytes).skip(11 * (f as int));
    assert(chunk.len() == tb);
    lemma_bits_value_bound(chunk);
    let tv = tail_value(bytes);
    if tb <= 6 {
        let k = (6 - tb) as nat;
        lemma_pow2_adds(tb, k);
        lemma_pow2_pos(k);
        assert(tv * pow2(k) < pow2(6)) by (nonlinear_arith)
            requires
                tv < pow2(tb),
                pow2(tb) * pow2(k) == pow2(6),
                pow2(k) >= 1,
        ;
        if 0 < tb {
            lemma_nat_bits_shift(tv, tb, k);
            lemma_nat_bits_of_value(chunk);
        }
    } else {
        let k = (11 - tb) as nat;
        lemma_pow2_adds(tb, k);
        lemma_pow2_pos(k);
        assert(tv * pow2(k) < pow2(11)) by (nonlinear_arith)
            requires
                tv < pow2(tb),
                pow2(tb) * pow2(k) == pow2(11),
                pow2(k) >= 1,
        ;
        if tb < 11 {
            lemma_nat_bits_shift(tv, tb, k);
            lemma_nat_bits_of_value(chunk);
        }
    }
}

/// Each complete group's value indexes into a table of 2048 entries.
proof fn lemma_group_value_bound(bytes: Seq<u8>, g: int)
    requires
        0 <= g < full_groups(bytes.len()),
    ensures
        group_value(bytes, g) < 2048,
        nat_bits(group_value(bytes, g), 11) == stream_bits(bytes).subrange(11 * g, 11 * g + 11),
{
    lemma_bit_totals(bytes.len());
    let chunk = stream_bits(bytes).subrange(11 * g, 11 * g + 11);
    assert(chunk.len() == 11);
    lemma_bits_value_bound(chunk);
    lemma2_to64();
    lemma_nat_bits_of_value(chunk);
}

/// The first `g` group tokens occupy `2 * g` characters.
proof fn lemma_group_tokens_len(p: Seq<Seq<char>>, bytes: Seq<u8>, g: nat)
    requires
        g <= full_groups(bytes.len()),
        p.len() >= 2048,
        forall|i: int| 0 <= i < p.len() ==> (#[trigger] p[i]).len() == 2,
    ensures
        group_tokens(p, bytes, g).len() == 2 * g,
    decreases g,
{
    if g > 0 {
        lemma_group_tokens_len(p, bytes, (g - 1) as nat);
        lemma_group_value_bound(bytes, g - 1);
    }
}

/// Pair `i` of the concatenated group tokens is the token of group `i`.
proof fn lemma_group_tokens_pair(p: Seq<Seq<char>>, bytes: Seq<u8>, g: nat, i: int)
    requires
        g <= full_groups(bytes.len()),
        p.len() >= 2048,
        forall|k: int| 0 <= k < p.len() ==> (#[trigger] p[k]).len() == 2,
        0 <= i < g,
    ensures
        pair_at(group_tokens(p, bytes, g), i) == p[group_value(bytes, i) as int],
    decreases g,
{
    let prev = group_tokens(p, bytes, (g - 1) as nat);
    lemma_group_tokens_len(p, bytes, (g - 1) as nat);
    lemma_group_value_bound(bytes, g - 1);
    let tok = p[group_value(bytes, g - 1) as int];
    if i == g - 1 {
        assert(pair_at(prev + tok, i) =~= tok);
    } else {
        lemma_group_tokens_pair(p, bytes, (g - 1) as nat, i);
        assert(pair_at(prev + tok, i) =~= pair_at(prev, i));
    }
}

/// Writing back the values of the first `k` pairs of `s` reproduces the
/// first `11 * k` bits of `bytes`, when those pairs carry the group tokens.
proof fn lemma_pairs_bits_reconstruct(p: Seq<Seq<char>>, s: Seq<char>, bytes: Seq<u8>, k: nat)
    requires
        forall|a: int, b: int| 0 <= a < b < p.len() ==> p[a] != p[b],
        p.len() >= 2048,
        k <= full_groups(bytes.len()),
        forall|i: int| 0 <= i < k ==> #[trigger] pair_at(s, i) == p[group_value(bytes, i) as int],
    ensures
        pairs_bits(p, s, k) == stream_bits(bytes).take(11 * (k as int)),
    decreases k,
{
    if k == 0 {
        assert(pairs_bits(p, s, 0) =~= stream_bits(bytes).take(0));
    } else {
        lemma_pairs_bits_reconstruct(p, s, bytes, (k - 1) as nat);
        lemma_group_value_bound(bytes, k - 1);
        let v = group_value(bytes, k - 1);
        lemma_token_index_unique(p, v as int);
        assert(token_index(p, pair_at(s, k - 1)) == v);
        let chunk = stream_bits(bytes).subrange(11 * (k - 1), 11 * (k - 1) + 11);
        lemma_bit_totals(bytes.len());
        assert(stream_bits(bytes).take(11 * k as int) =~= stream_bits(bytes).take(
            11 * (k - 1),
        ) + chunk);
    }
}

/// The length relation: `len` bytes encode to `2 * full_groups(len)`
/// characters, plus one for a leftover of one to six bits, plus two for a
/// leftover of seven to ten.
pub proof fn lemma_encode_length(primary: AlphabetTable, tail: AlphabetTable, bytes: Seq<u8>)
    requires
        primary.wf(),
        primary.size() >= 2048,
        primary.width() == 2,
        tail.wf(),
        tail.size() >= 64,
        tail.width() == 1,
    ensures
        spec_encode(primary.tokens_view(), tail.tokens_view(), bytes).len() == 2 * full_groups(
            bytes.len(),
        ) + (if tail_len(bytes.len()) == 0 {
            0int
        } else if tail_len(bytes.len()) <= 6 {
            1int
        } else {
            2int
        }),
{
    let p = primary.tokens_view();
    let t = tail.tokens_view();
    let f = full_groups(bytes.len());
    let tb = tail_len(bytes.len());
    lemma_group_tokens_len(p, bytes, f);
    lemma_tail_bounds(bytes);
    lemma2_to64();
    if tb != 0 {
        if tb <= 6 {
            assert(t[(tail_value(bytes) * pow2((6 - tb) as nat)) as int].len() == 1);
        } else {
            assert(p[(tail_value(bytes) * pow2((11 - tb) as nat)) as int].len() == 2);
        }
    }
}

/// The round trip: decoding an encoding gives the input back, for every
/// byte sequence and every well-formed pair of tables of the codec's sizes.
pub proof fn lemma_round_trip(primary: AlphabetTable, tail: AlphabetTable, bytes: Seq<u8>)
    requires
        primary.wf(),
        primary.size() == 2048,
        primary.width() == 2,
        tail.wf(),
        tail.size() == 64,
        tail.width() == 1,
    ensures
        decode_ok(
            primary.tokens_view(),
            tail.tokens_view(),
            spec_encode(primary.tokens_view(), tail.tokens_view(), bytes),
        ),
        spec_decode(
            primary.tokens_view(),
            tail.tokens_view(),
            spec_encode(primary.tokens_view(), tail.tokens_view(), bytes),
        ) == bytes,
{
    let p = primary.tokens_view();
    let t = tail.tokens_view();
    let s = spec_encode(p, t, bytes);
    let b = stream_bits(bytes);
    let f = full_groups(bytes.len());
    let tb = tail_len(bytes.len());
    let body = group_tokens(p, bytes, f);
    lemma_bit_totals(bytes.len());
    lemma_group_tokens_len(p, bytes, f);
    lemma_tail_bounds(bytes);
    lemma2_to64();
    assert forall|i: int| 0 <= i < f implies #[trigger] pair_at(s, i) == p[group_value(
        bytes,
        i,
    ) as int] && has_token(p, pair_at(s, i)) by {
        lemma_group_tokens_pair(p, bytes, f, i);
        assert(pair_at(s, i) =~= pair_at(body, i));
        lemma_group_value_bound(bytes, i);
        assert(p[group_value(bytes, i) as int] == pair_at(s, i));
        assert(has_token(p, pair_at(s, i)));
    }
    if tb == 0 {
        assert(s =~= body);
        assert(s.len() == 2 * f);
        lemma_pairs_bits_reconstruct(p, s, bytes, f);
        assert(decoded_bits(p, t, s) =~= b);
        lemma_bytes_of_stream(bytes, Seq::<bool>::empty());
        assert(b + Seq::<bool>::empty() =~= b);
        assert(spec_decode(p, t, s) == bytes);
        assert(decode_ok(p, t, s));
    } else if tb <= 6 {
        let sh = tail_value(bytes) * pow2((6 - tb) as nat);
        let tok = t[sh as int];
        assert(s == body + tok);
        assert(tok.len() == 1);
        assert(s.len() == 2 * f + 1);
        assert(s.len() / 2 == f);
        assert(s.len() % 2 == 1);
        lemma_pairs_bits_reconstruct(p, s, bytes, f);
        assert(s.last() == tok[0]);
        assert(seq![s.last()] =~= tok);
        lemma_token_index_unique(t, sh as int);
        assert(has_token(t, seq![s.last()]));
        assert(token_index(t, seq![s.last()]) == sh);
        let zk = (6 - tb) as nat;
        assert(nat_bits(sh, 6) == b.skip(11 * (f as int)) + zero_bits(zk));
        assert(decoded_bits(p, t, s) =~= b + zero_bits(zk)) by {
            assert(b.take(11 * (f as int)) + (b.skip(11 * (f as int)) + zero_bits(zk)) =~= b
                + zero_bits(zk));
        }
        lemma_bytes_of_stream(bytes, zero_bits(zk));
        assert(spec_decode(p, t, s) == bytes);
        assert(decode_ok(p, t, s));
    } else {
        let sh = tail_value(bytes) * pow2((11 - tb) as nat);
        let tok = p[sh as int];
        assert(s == body + tok);
        assert(tok.len() == 2);
        assert(s.len() == 2 * f + 2);
        assert(s.len() / 2 == f + 1);
        assert(s.len() % 2 == 0);
        assert(pair_at(s, f as int) =~= tok);
        lemma_token_index_unique(p, sh as int);
        assert(has_token(p, pair_at(s, f as int)));
        assert(token_index(p, pair_at(s, f as int)) == sh);
        lemma_pairs_bits_reconstruct(p, s, bytes, f);
        let zk = (11 - tb) as nat;
        assert(nat_bits(sh, 11) == b.skip(11 * (f as int)) + zero_bits(zk));
        assert(pairs_bits(p, s, (f + 1) as nat) =~= b + zero_bits(zk)) by {
            assert(pairs_bits(p, s, (f + 1) as nat) == pairs_bits(p, s, f) + nat_bits(sh, 11));
            assert(b.take(11 * (f as int)) + (b.skip(11 * (f as int)) + zero_bits(zk)) =~= b
                + zero_bits(zk));
        }
        assert(decoded_bits(p, t, s) =~= b + zero_bits(zk));
        lemma_bytes_of_stream(bytes, zero_bits(zk));
        assert(spec_decode(p, t, s) == bytes);
        assert(decode_ok(p, t, s));
    }
}

} // verus!
