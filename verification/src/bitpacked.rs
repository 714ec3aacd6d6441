//! Bit-packed codec.
//!
//! Body layout: `<min: u64 LE> <bit_width: u8> <packed deltas>`, where each
//! delta `v[i] - min` occupies `bit_width` bits and
//! `bit_width = spec_num_bits(max - min)`.  Applicable to every column.

use vstd::prelude::*;
use vstd::arithmetic::power2::pow2;
use vstd::bits::lemma_u64_shl_is_mul;
use vstd::arithmetic::power2::{lemma2_to64, lemma2_to64_rest, lemma_pow2_strictly_increases};
use vstd::arithmetic::mul::lemma_mul_inequality;
use vstd::arithmetic::div_mod::{
    lemma_fundamental_div_mod, lemma_fundamental_div_mod_converse, lemma_div_is_ordered,
    lemma_mod_bound,
};
use crate::bits::{
    bits_nat, le64_at, packed_bit, packed_byte_len, spec_num_bits, stream_bit, lemma_bits_nat_skip,
    lemma_packed_window, num_bits, pack_bits, read_bits, write_u64_le,
};
use crate::buffer::{ob_bytes, ob_byte, ob_len};
use crate::stats::{FastFieldStats, lemma_seq_min_le, lemma_seq_max_ge};
use crate::{FastFieldCodecReader, FastFieldError};
use ownedbytes::OwnedBytes;

verus! {

/// Largest body length a reader accepts; keeps every bit offset within
/// `u64` range.
pub const MAX_BODY_LEN: u64 = 0x1000_0000_0000_0000;

/// Additive estimate bias accounting for the 9-byte header, in millionths
/// of the uncompressed size.
pub const BITPACKED_HEADER_COST_PPM: u64 = 1000;

/// Estimate cost of one bit per value: `1/64` in millionths.
pub const PPM_PER_BIT: u64 = 15625;

/// A well-formed bit-packed body: header present, bit width at most 64,
/// length small enough that bit offsets fit in `u64`.
pub open spec fn bp_wf(body: Seq<u8>) -> bool {
    &&& body.len() >= 9
    &&& body[8] <= 64
    &&& body.len() <= MAX_BODY_LEN
}

pub open spec fn bp_min(body: Seq<u8>) -> nat {
    le64_at(body, 0)
}

pub open spec fn bp_bw(body: Seq<u8>) -> u8 {
    body[8]
}

/// Whether ordinal `ord`'s bits lie inside the body.
pub open spec fn bp_in_range(body: Seq<u8>, ord: int) -> bool {
    0 <= ord && 72 + (ord + 1) * (bp_bw(body) as int) <= 8 * body.len()
}

/// The value a bit-packed body holds at ordinal `ord`.
pub open spec fn bp_value(body: Seq<u8>, ord: int) -> u64 {
    ((bp_min(body) + bits_nat(
        body,
        (72 + ord * (bp_bw(body) as int)) as nat,
        bp_bw(body) as nat,
    )) % 0x1_0000_0000_0000_0000) as u64
}

/// The body decodes every ordinal of `vals` back to its value.
pub open spec fn bp_body_decodes(body: Seq<u8>, vals: Seq<u64>) -> bool {
    forall|i: int|
        #![trigger bp_value(body, i)]
        #![trigger bp_in_range(body, i)]
        0 <= i < vals.len() ==> bp_in_range(body, i) && bp_value(body, i) == vals[i]
}

/// A body whose header matches `min` and `bw` and whose packed region
/// holds the deltas of `vals` below `min` decodes back to `vals`.
pub proof fn lemma_bp_decodes(body: Seq<u8>, deltas: Seq<u64>, vals: Seq<u64>, min: u64, bw: u8)
    requires
        bw <= 64,
        vals.len() < 0x1_0000_0000,
        deltas.len() == vals.len(),
        forall|k: int| 0 <= k < vals.len() ==> #[trigger] deltas[k] == vals[k] - min,
        forall|k: int| 0 <= k < vals.len() ==> (#[trigger] deltas[k] as nat) < pow2(bw as nat),
        body.len() >= 9,
        bp_min(body) == min,
        bp_bw(body) == bw,
        8 * (body.len() - 9) >= vals.len() * (bw as nat),
        forall|q: nat|
            q < 8 * (body.len() - 9) ==> #[trigger] stream_bit(body.skip(9), q) == packed_bit(
                deltas,
                bw as nat,
                q,
            ),
    ensures
        bp_body_decodes(body, vals),
{
    let packed = body.skip(9);
    let n = vals.len() as nat;
    assert forall|i: int|
        #![trigger bp_value(body, i)]
        #![trigger bp_in_range(body, i)]
        0 <= i < vals.len() implies bp_in_range(body, i) && bp_value(body, i) == vals[i] by {
        let ord = i as nat;
        lemma_mul_inequality(ord as int + 1, n as int, bw as int);
        assert((ord + 1) * (bw as nat) <= n * (bw as nat));
        assert(bp_in_range(body, i));
        assert(ord * (bw as nat) + bw <= n * (bw as nat)) by (nonlinear_arith)
            requires
                ord < n,
        ;
        lemma_bits_nat_skip(body, 9, (ord * (bw as nat)) as nat, bw as nat);
        lemma_packed_window(packed, deltas, bw as nat, ord);
        assert(bits_nat(body, (72 + i * (bp_bw(body) as int)) as nat, bw as nat) == deltas[i]);
        assert(bp_value(body, i) == vals[i]);
    }
}

/// Bit-packed codec: always applicable.
pub struct BitpackedFastFieldCodec;

impl BitpackedFastFieldCodec {
    pub open spec fn spec_is_applicable(vals: Seq<u64>, stats: FastFieldStats) -> bool {
        true
    }

    /// Estimated body size over `8 * N` bytes uncompressed, in millionths:
    /// one bit-width share per value plus a small header bias.
    pub open spec fn spec_estimate(stats: FastFieldStats) -> nat {
        spec_num_bits((stats.max_value - stats.min_value) as nat) * (PPM_PER_BIT as nat) + (
        BITPACKED_HEADER_COST_PPM as nat)
    }

    pub fn is_applicable(vals: &[u64], stats: FastFieldStats) -> (r: bool)
        ensures
            r == Self::spec_is_applicable(vals@, stats),
    {
        true
    }

    pub fn estimate(vals: &[u64], stats: FastFieldStats) -> (r: u64)
        requires
            stats.min_value <= stats.max_value,
        ensures
            r as nat == Self::spec_estimate(stats),
    {
        let bw = num_bits(stats.max_value - stats.min_value);
        (bw as u64) * PPM_PER_BIT + BITPACKED_HEADER_COST_PPM
    }

    /// Writes the codec body for `vals`.  The appended bytes form a
    /// well-formed body that decodes every ordinal back to its value.
    pub fn serialize(out: &mut Vec<u8>, vals: &[u64], stats: FastFieldStats)
        requires
            stats.is_stats_of(vals@),
            vals@.len() < 0x1_0000_0000,
            old(out)@.len() + 9 + 8 * vals@.len() <= usize::MAX,
        ensures
            final(out)@.len() == old(out)@.len() + 9 + packed_byte_len(
                vals@.len() as nat,
                spec_num_bits((stats.max_value - stats.min_value) as nat),
            ),
            final(out)@.subrange(0, old(out)@.len() as int) == old(out)@,
            final(out)@.len() <= old(out)@.len() + 9 + 8 * vals@.len(),
            bp_wf(final(out)@.skip(old(out)@.len() as int)),
            bp_body_decodes(final(out)@.skip(old(out)@.len() as int), vals@),
    {
        let ghost old_len = out@.len() as int;
        let ghost prefix = out@;
        proof {
            if vals@.len() > 0 {
                lemma_seq_min_le(vals@, 0);
                lemma_seq_max_ge(vals@, 0);
            }
        }
        let amp = stats.max_value - stats.min_value;
        let bw = num_bits(amp);
        write_u64_le(out, stats.min_value);
        out.push(bw);
        let ghost hdr = out@;
        proof {
            assert(hdr.len() == old_len + 9);
            assert(hdr.subrange(0, old_len) =~= prefix);
            assert(le64_at(hdr, old_len) == stats.min_value);
            assert(hdr[old_len + 8] == bw);
        }
        let mut deltas: Vec<u64> = Vec::new();
        let mut i: usize = 0;
        while i < vals.len()
            invariant
                i <= vals@.len(),
                stats.is_stats_of(vals@),
                deltas@.len() == i,
                forall|k: int|
                    0 <= k < i ==> #[trigger] deltas@[k] == vals@[k] - stats.min_value,
            decreases vals@.len() - i,
        {
            proof {
                lemma_seq_min_le(vals@, i as int);
            }
            deltas.push(vals[i] - stats.min_value);
            i += 1;
        }
        proof {
            assert forall|k: int| 0 <= k < deltas@.len() implies (deltas@[k] as nat) < pow2(
                bw as nat,
            ) by {
                lemma_seq_min_le(vals@, k);
                lemma_seq_max_ge(vals@, k);
            }
        }
        proof {
            let n = vals@.len() as nat;
            let pbl = packed_byte_len(n, bw as nat);
            lemma_mul_inequality(bw as int, 64, n as int);
            assert(n * (bw as nat) <= 64 * n) by (nonlinear_arith)
                requires
                    bw <= 64,
            ;
            lemma_div_is_ordered((n * (bw as nat) + 7) as int, (64 * n + 7) as int, 8);
            lemma_fundamental_div_mod_converse((64 * n + 7) as int, 8, (8 * n) as int, 7);
            assert(pbl <= 8 * n);
            lemma_fundamental_div_mod((n * (bw as nat) + 7) as int, 8);
            lemma_mod_bound((n * (bw as nat) + 7) as int, 8);
            assert(8 * pbl >= n * (bw as nat));
        }
        pack_bits(out, deltas.as_slice(), bw);
        proof {
            let body = out@.skip(old_len);
            let n = vals@.len() as nat;
            let pbl = packed_byte_len(n, bw as nat);
            assert(pbl <= 8 * n);
            assert(8 * pbl >= n * (bw as nat));
            assert(out@.subrange(0, old_len + 9) == hdr) by {
                assert(out@.subrange(0, old_len + 9) =~= hdr);
            }
            assert(out@.subrange(0, old_len) =~= prefix);
            assert(body.len() == 9 + pbl);
            assert(body[8] == out@[old_len + 8] && out@[old_len + 8] == hdr[old_len + 8]);
            assert(bp_bw(body) == bw);
            assert(le64_at(body, 0) == le64_at(out@, old_len)) by {
                assert(body[0] == out@[old_len] && body[1] == out@[old_len + 1] && body[2] == out@[
                    old_len + 2] && body[3] == out@[old_len + 3] && body[4] == out@[old_len + 4]
                    && body[5] == out@[old_len + 5] && body[6] == out@[old_len + 6] && body[7]
                    == out@[old_len + 7]);
            }
            assert(le64_at(out@, old_len) == stats.min_value) by {
                assert(out@[old_len] == hdr[old_len] && out@[old_len + 1] == hdr[old_len + 1]
                    && out@[old_len + 2] == hdr[old_len + 2] && out@[old_len + 3] == hdr[old_len
                    + 3] && out@[old_len + 4] == hdr[old_len + 4] && out@[old_len + 5] == hdr[
                old_len + 5] && out@[old_len + 6] == hdr[old_len + 6] && out@[old_len + 7] == hdr[
                old_len + 7]);
            }
            assert(bp_min(body) == stats.min_value);
            assert(body.skip(9) =~= out@.skip(old_len + 9));
            assert forall|q: nat| q < 8 * (body.len() - 9) implies #[trigger] stream_bit(
                body.skip(9),
                q,
            ) == packed_bit(deltas@, bw as nat, q) by {
                assert(stream_bit(out@.skip(old_len + 9), q) == packed_bit(deltas@, bw as nat, q));
            }
            lemma_bp_decodes(body, deltas@, vals@, stats.min_value, bw);
        }
    }

    /// Builds a reader over a serialized body; `CorruptFormat` when the
    /// header is truncated, oversized, or claims a bit width above 64.
    pub fn open_from_bytes(bytes: OwnedBytes) -> (r: Result<BitpackedReader, FastFieldError>)
        ensures
            r is Ok <==> bp_wf(ob_bytes(bytes)),
            r matches Ok(rd) ==> rd.wf() && ob_bytes(rd.data) == ob_bytes(bytes),
    {
        let len = ob_len(&bytes);
        if len < 9 || (len as u64) > MAX_BODY_LEN {
            return Err(FastFieldError::CorruptFormat);
        }
        let bw = ob_byte(&bytes, 8);
        if bw > 64 {
            return Err(FastFieldError::CorruptFormat);
        }
        let min = crate::bits::read_u64_le(&bytes, 0);
        Ok(BitpackedReader { min, bw, data: bytes })
    }
}

/// Random-access reader over one bit-packed body.
pub struct BitpackedReader {
    pub min: u64,
    pub bw: u8,
    pub data: OwnedBytes,
}

impl BitpackedReader {
    pub open spec fn body(&self) -> Seq<u8> {
        ob_bytes(self.data)
    }
}

impl FastFieldCodecReader for BitpackedReader {
    open spec fn wf(&self) -> bool {
        &&& bp_wf(self.body())
        &&& self.min as nat == bp_min(self.body())
        &&& self.bw == bp_bw(self.body())
    }

    open spec fn spec_get(&self, doc: u64) -> u64 {
        bp_value(self.body(), doc as int)
    }

    open spec fn spec_in_range(&self, doc: u64) -> bool {
        bp_in_range(self.body(), doc as int)
    }

    open spec fn spec_min_value(&self) -> u64 {
        self.min
    }

    open spec fn spec_max_value(&self) -> u64 {
        ((self.min + pow2(self.bw as nat) - 1) % 0x1_0000_0000_0000_0000) as u64
    }

    fn get_u64(&self, doc: u64) -> (r: u64) {
        let len = ob_len(&self.data);
        let avail: u64 = 8 * (len as u64 - 9);
        proof {
            assert(((doc as int) + 1) * (self.bw as int) <= 0x1_0000_0000_0000_0000 * 64)
                by (nonlinear_arith)
                requires
                    doc <= u64::MAX && self.bw <= 64,
            ;
        }
        let need: u128 = ((doc as u128) + 1) * (self.bw as u128);
        if need <= avail as u128 {
            proof {
                assert((doc as nat) * (self.bw as nat) + (self.bw as nat) == (doc as nat + 1) * (
                self.bw as nat)) by (nonlinear_arith);
            }
            let bit_off: u64 = 72 + doc * (self.bw as u64);
            let w = read_bits(&self.data, bit_off, self.bw);
            proof {
                crate::bits::lemma_bits_nat_bound(self.body(), bit_off as nat, self.bw as nat);
                lemma2_to64_rest();
                if (self.bw as nat) < 64 {
                    lemma_pow2_strictly_increases(self.bw as nat, 64);
                }
            }
            self.min.wrapping_add(w)
        } else {
            self.min
        }
    }

    fn min_value(&self) -> (r: u64) {
        self.min
    }

    fn max_value(&self) -> (r: u64) {
        proof {
            lemma2_to64();
            lemma2_to64_rest();
        }
        if self.bw == 64 {
            self.min.wrapping_add(u64::MAX)
        } else {
            proof {
                lemma_pow2_strictly_increases(self.bw as nat, 64);
                lemma_u64_shl_is_mul(1u64, self.bw as u64);
            }
            let mask: u64 = (1u64 << self.bw) - 1;
            self.min.wrapping_add(mask)
        }
    }
}

} // verus!
