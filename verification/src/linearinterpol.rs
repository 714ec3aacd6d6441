//! Linear-interpolation codec.
//!
//! A single line is fitted through the first and last value; residuals
//! against that line are stored bit-packed after an offset by the
//! smallest residual.  Body layout:
//! `<first: u64 LE> <last: u64 LE> <num_vals: u32 LE>
//!  <residual_min + 2^63: u64 LE> <residual_bit_width: u8> <packed>`.

use vstd::prelude::*;
use vstd::arithmetic::power2::{pow2, lemma2_to64_rest, lemma_pow2_strictly_increases};
use vstd::arithmetic::mul::lemma_mul_inequality;
use vstd::arithmetic::div_mod::{
    lemma_fundamental_div_mod, lemma_fundamental_div_mod_converse, lemma_div_is_ordered,
    lemma_mod_bound, lemma_mod_multiples_vanish,
};
use crate::bits::{
    bits_nat, le32_at, le64_at, packed_bit, packed_byte_len, spec_num_bits, stream_bit,
    lemma_bits_nat_skip, lemma_packed_window, num_bits, read_bits, read_u32_le, read_u64_le,
    write_u32_le, write_u64_le,
};
use crate::line::{
    line_at, res_at, res_deltas, res_max_upto, res_min_upto, lemma_line_bounds, lemma_res_bounds,
    line_exec, pack_residuals, residual_minmax,
};
use crate::buffer::{ob_bytes, ob_byte, ob_len};
use crate::stats::{FastFieldStats, lemma_seq_min_le, lemma_seq_max_ge};
use crate::bitpacked::{MAX_BODY_LEN, PPM_PER_BIT};
use crate::{FastFieldCodecReader, FastFieldError};
use ownedbytes::OwnedBytes;

verus! {

/// Additive estimate bias of this codec, in millionths.
pub const LINEAR_COST_PPM: u64 = 5000;

/// Offset added to the stored residual minimum so it is kept unsigned.
pub const RESIDUAL_BIAS: u64 = 0x8000_0000_0000_0000;

pub open spec fn lin_first(body: Seq<u8>) -> u64 {
    le64_at(body, 0) as u64
}

pub open spec fn lin_last(body: Seq<u8>) -> u64 {
    le64_at(body, 8) as u64
}

pub open spec fn lin_n(body: Seq<u8>) -> int {
    le32_at(body, 16) as int
}

pub open spec fn lin_rmin(body: Seq<u8>) -> int {
    le64_at(body, 20) - 0x8000_0000_0000_0000
}

pub open spec fn lin_bw(body: Seq<u8>) -> u8 {
    body[28]
}

/// A well-formed linear-interpolation body.
pub open spec fn lin_wf(body: Seq<u8>) -> bool {
    &&& body.len() >= 29
    &&& body[28] <= 64
    &&& body.len() <= MAX_BODY_LEN
    &&& lin_n(body) >= 2
}

/// Whether ordinal `ord` can be decoded from the body.
pub open spec fn lin_in_range(body: Seq<u8>, ord: int) -> bool {
    &&& 0 <= ord < lin_n(body)
    &&& 232 + (ord + 1) * (lin_bw(body) as int) <= 8 * body.len()
}

/// The value the body decodes at ordinal `ord`: line prediction plus the
/// stored residual.
pub open spec fn lin_value(body: Seq<u8>, ord: int) -> u64 {
    ((line_at(lin_first(body), lin_last(body), (lin_n(body) - 1) as nat, ord) + lin_rmin(body)
        + bits_nat(body, (232 + ord * (lin_bw(body) as int)) as nat, lin_bw(body) as nat))
        % 0x1_0000_0000_0000_0000) as u64
}

/// The body decodes every ordinal of `vals` back to its value.
pub open spec fn lin_body_decodes(body: Seq<u8>, vals: Seq<u64>) -> bool {
    forall|i: int|
        #![trigger lin_value(body, i)]
        #![trigger lin_in_range(body, i)]
        0 <= i < vals.len() ==> lin_in_range(body, i) && lin_value(body, i) == vals[i]
}

/// Residual bit width chosen for `vals`.
pub open spec fn lin_spec_bw(vals: Seq<u64>) -> nat {
    let n1 = (vals.len() - 1) as nat;
    spec_num_bits(
        (res_max_upto(vals, vals[0], vals.last(), n1, vals.len() as int) - res_min_upto(
            vals,
            vals[0],
            vals.last(),
            n1,
            vals.len() as int,
        )) as nat,
    )
}

/// Running residual extrema stay within the global residual bounds.
pub proof fn lemma_res_minmax_range(
    vals: Seq<u64>,
    first: u64,
    last: u64,
    n1: nat,
    k: int,
    bound: int,
)
    requires
        k >= 1,
        forall|i: int|
            0 <= i < k ==> -bound < #[trigger] res_at(vals, first, last, n1, i) < bound,
    ensures
        -bound < res_min_upto(vals, first, last, n1, k) < bound,
        -bound < res_max_upto(vals, first, last, n1, k) < bound,
        res_min_upto(vals, first, last, n1, k) <= res_max_upto(vals, first, last, n1, k),
    decreases k,
{
    if k > 1 {
        lemma_res_minmax_range(vals, first, last, n1, k - 1, bound);
    }
}

/// Residuals of a column against the line through its first and last
/// value stay strictly within the column's amplitude.
pub proof fn lemma_column_res_bounded(vals: Seq<u64>, stats: FastFieldStats, i: int)
    requires
        stats.is_stats_of(vals),
        2 <= vals.len(),
        0 <= i < vals.len(),
    ensures
        -((stats.max_value - stats.min_value) as int) <= res_at(
            vals,
            vals[0],
            vals.last(),
            (vals.len() - 1) as nat,
            i,
        ) <= (stats.max_value - stats.min_value) as int,
{
    let n1 = (vals.len() - 1) as nat;
    lemma_seq_min_le(vals, 0);
    lemma_seq_max_ge(vals, 0);
    lemma_seq_min_le(vals, vals.len() - 1);
    lemma_seq_max_ge(vals, vals.len() - 1);
    lemma_seq_min_le(vals, i);
    lemma_seq_max_ge(vals, i);
    lemma_line_bounds(vals[0], vals.last(), n1, i);
}

/// A body with matching header fields over the packed residual deltas of
/// `vals` decodes back to `vals`.
pub proof fn lemma_lin_decodes(body: Seq<u8>, vals: Seq<u64>, rmin: int, bw: u8)
    requires
        bw <= 64,
        2 <= vals.len() < 0x1_0000_0000,
        body.len() >= 29,
        lin_first(body) == vals[0],
        lin_last(body) == vals.last(),
        lin_n(body) == vals.len(),
        lin_rmin(body) == rmin,
        lin_bw(body) == bw,
        forall|i: int|
            0 <= i < vals.len() ==> rmin <= #[trigger] res_at(
                vals,
                vals[0],
                vals.last(),
                (vals.len() - 1) as nat,
                i,
            ),
        forall|i: int|
            0 <= i < vals.len() ==> (#[trigger] res_at(
                vals,
                vals[0],
                vals.last(),
                (vals.len() - 1) as nat,
                i,
            ) - rmin) < pow2(bw as nat),
        8 * (body.len() - 29) >= vals.len() * (bw as nat),
        forall|q: nat|
            q < 8 * (body.len() - 29) ==> #[trigger] stream_bit(body.skip(29), q) == packed_bit(
                res_deltas(vals, vals[0], vals.last(), (vals.len() - 1) as nat, rmin),
                bw as nat,
                q,
            ),
    ensures
        lin_body_decodes(body, vals),
{
    let n1 = (vals.len() - 1) as nat;
    let deltas = res_deltas(vals, vals[0], vals.last(), n1, rmin);
    let packed = body.skip(29);
    let n = vals.len() as nat;
    assert forall|i: int|
        #![trigger lin_value(body, i)]
        #![trigger lin_in_range(body, i)]
        0 <= i < vals.len() implies lin_in_range(body, i) && lin_value(body, i) == vals[i] by {
        let ord = i as nat;
        lemma_mul_inequality(ord as int + 1, n as int, bw as int);
        assert((ord + 1) * (bw as nat) <= n * (bw as nat));
        assert(lin_in_range(body, i));
        assert(ord * (bw as nat) + bw <= n * (bw as nat)) by (nonlinear_arith)
            requires
                ord < n,
        ;
        lemma2_to64_rest();
        if bw < 64 {
            lemma_pow2_strictly_increases(bw as nat, 64);
        }
        assert(deltas[i] == (res_at(vals, vals[0], vals.last(), n1, i) - rmin) as u64);
        lemma_bits_nat_skip(body, 29, (ord * (bw as nat)) as nat, bw as nat);
        lemma_packed_window(packed, deltas, bw as nat, ord);
        assert(bits_nat(body, (232 + i * (lin_bw(body) as int)) as nat, bw as nat) == deltas[i]);
        assert(deltas[i] == res_at(vals, vals[0], vals.last(), n1, i) - rmin);
        assert(lin_value(body, i) == vals[i]);
    }
}

/// Linear-interpolation codec.
pub struct LinearInterpolCodec;

impl LinearInterpolCodec {
    /// Applicable to columns long enough for a line to pay off, short
    /// enough for a `u32` count, and with an amplitude whose residuals
    /// fit a signed 64-bit offset.
    pub open spec fn spec_is_applicable(vals: Seq<u64>, stats: FastFieldStats) -> bool {
        &&& stats.num_vals >= 5
        &&& stats.num_vals < 0x1_0000_0000
        &&& stats.max_value - stats.min_value < 0x8000_0000_0000_0000
    }

    /// Estimated compression ratio in millionths: one residual bit-width
    /// share per value plus this codec's bias.
    pub open spec fn spec_estimate(vals: Seq<u64>) -> nat {
        lin_spec_bw(vals) * (PPM_PER_BIT as nat) + (LINEAR_COST_PPM as nat)
    }

    pub fn is_applicable(vals: &[u64], stats: FastFieldStats) -> (r: bool)
        requires
            stats.min_value <= stats.max_value,
        ensures
            r == Self::spec_is_applicable(vals@, stats),
    {
        stats.num_vals >= 5 && stats.num_vals < 0x1_0000_0000 && stats.max_value
            - stats.min_value < 0x8000_0000_0000_0000
    }

    pub fn estimate(vals: &[u64], stats: FastFieldStats) -> (r: u64)
        requires
            stats.is_stats_of(vals@),
            2 <= vals@.len() < 0x1_0000_0000,
            stats.max_value - stats.min_value < 0x8000_0000_0000_0000,
        ensures
            r as nat == Self::spec_estimate(vals@),
    {
        let (_rmin, _rmax, bw) = Self::residual_width(vals, stats);
        (bw as u64) * PPM_PER_BIT + LINEAR_COST_PPM
    }

    /// Scans the residuals once and returns their minimum, maximum and
    /// the bit width of their range.
    pub(crate) fn residual_width(vals: &[u64], stats: FastFieldStats) -> (r: (i64, i64, u8))
        requires
            stats.is_stats_of(vals@),
            2 <= vals@.len() < 0x1_0000_0000,
            stats.max_value - stats.min_value < 0x8000_0000_0000_0000,
        ensures
            r.0 as int == res_min_upto(
                vals@,
                vals@[0],
                vals@.last(),
                (vals@.len() - 1) as nat,
                vals@.len() as int,
            ),
            r.1 as int == res_max_upto(
                vals@,
                vals@[0],
                vals@.last(),
                (vals@.len() - 1) as nat,
                vals@.len() as int,
            ),
            r.0 <= r.1,
            r.2 as nat == lin_spec_bw(vals@),
            r.2 <= 64,
            (r.1 - r.0) < pow2(r.2 as nat),
    {
        let n = vals.len();
        let n1: u64 = (n - 1) as u64;
        proof {
            assert forall|i: int|
                0 <= i < vals@.len() implies -0x8000_0000_0000_0000 < #[trigger] res_at(
                vals@,
                vals@[0],
                vals@.last(),
                n1 as nat,
                i,
            ) < 0x8000_0000_0000_0000 by {
                lemma_column_res_bounded(vals@, stats, i);
            }
        }
        let first = vals[0];
        let last = vals[n - 1];
        proof {
            assert(vals@.last() == vals@[vals@.len() - 1]);
        }
        let (rmin, rmax) = residual_minmax(vals, first, last, n1);
        proof {
            lemma_res_minmax_range(
                vals@,
                first,
                last,
                n1 as nat,
                vals@.len() as int,
                0x8000_0000_0000_0000,
            );
        }
        let amp_r: u64 = ((rmax as i128) - (rmin as i128)) as u64;
        let bw = num_bits(amp_r);
        (rmin, rmax, bw)
    }

    /// Writes the codec body; the appended bytes decode every ordinal of
    /// `vals` back to its value.
    pub fn serialize(out: &mut Vec<u8>, vals: &[u64], stats: FastFieldStats)
        requires
            stats.is_stats_of(vals@),
            2 <= vals@.len() < 0x1_0000_0000,
            stats.max_value - stats.min_value < 0x8000_0000_0000_0000,
            old(out)@.len() + 29 + 8 * vals@.len() <= usize::MAX,
        ensures
            final(out)@.len() == old(out)@.len() + 29 + packed_byte_len(
                vals@.len() as nat,
                lin_spec_bw(vals@),
            ),
            final(out)@.subrange(0, old(out)@.len() as int) == old(out)@,
            final(out)@.len() <= old(out)@.len() + 29 + 8 * vals@.len(),
            lin_wf(final(out)@.skip(old(out)@.len() as int)),
            lin_body_decodes(final(out)@.skip(old(out)@.len() as int), vals@),
    {
        let ghost old_len = out@.len() as int;
        let ghost prefix = out@;
        let n = vals.len();
        let n1: u64 = (n - 1) as u64;
        let first = vals[0];
        let last = vals[n - 1];
        proof {
            assert(vals@.last() == vals@[vals@.len() - 1]);
        }
        let (rmin, rmax, bw) = Self::residual_width(vals, stats);
        write_u64_le(out, first);
        write_u64_le(out, last);
        write_u32_le(out, n as u32);
        let biased: u64 = (((rmin as i128) + (RESIDUAL_BIAS as i128))) as u64;
        write_u64_le(out, biased);
        out.push(bw);
        let ghost hdr = out@;
        proof {
            assert(hdr.len() == old_len + 29);
            assert(hdr.subrange(0, old_len) =~= prefix);
            lemma_pbl_bounds(n as nat, bw);
            assert forall|i: int|
                0 <= i < vals@.len() implies rmin <= #[trigger] res_at(
                vals@,
                first,
                last,
                n1 as nat,
                i,
            ) && (res_at(vals@, first, last, n1 as nat, i) - rmin) < pow2(bw as nat) by {
                lemma_res_bounds(vals@, first, last, n1 as nat, vals@.len() as int, i);
            }
        }
        pack_residuals(out, vals, first, last, n1, rmin, bw);
        proof {
            let body = out@.skip(old_len);
            let nn = vals@.len() as nat;
            let pbl = packed_byte_len(nn, bw as nat);
            assert(out@.subrange(0, old_len + 29) == hdr) by {
                assert(out@.subrange(0, old_len + 29) =~= hdr);
            }
            assert(out@.subrange(0, old_len) =~= prefix);
            assert(body.len() == 29 + pbl);
            assert forall|k: int| 0 <= k < 29 implies #[trigger] body[k] == hdr[old_len + k] by {
                assert(body[k] == out@[old_len + k]);
                assert(out@[old_len + k] == out@.subrange(0, old_len + 29)[old_len + k]);
            }
            lemma_le_fields(body, hdr, old_len, first, last, n as u32, biased, bw);
            assert(lin_rmin(body) == rmin);
            assert(body.skip(29) =~= out@.skip(old_len + 29));
            assert forall|q: nat| q < 8 * (body.len() - 29) implies #[trigger] stream_bit(
                body.skip(29),
                q,
            ) == packed_bit(res_deltas(vals@, first, last, n1 as nat, rmin as int), bw as nat, q) by {
                assert(stream_bit(out@.skip(old_len + 29), q) == packed_bit(
                    res_deltas(vals@, first, last, n1 as nat, rmin as int),
                    bw as nat,
                    q,
                ));
            }
            lemma_lin_decodes(body, vals@, rmin as int, bw);
        }
    }

    /// Builds a reader over a serialized body; `CorruptFormat` when the
    /// header is truncated or inconsistent.
    pub fn open_from_bytes(bytes: OwnedBytes) -> (r: Result<
        LinearInterpolReader,
        FastFieldError,
    >)
        ensures
            r is Ok <==> lin_wf(ob_bytes(bytes)),
            r matches Ok(rd) ==> rd.wf() && ob_bytes(rd.data) == ob_bytes(bytes),
    {
        let len = ob_len(&bytes);
        if len < 29 || (len as u64) > MAX_BODY_LEN {
            return Err(FastFieldError::CorruptFormat);
        }
        let bw = ob_byte(&bytes, 28);
        if bw > 64 {
            return Err(FastFieldError::CorruptFormat);
        }
        let n = read_u32_le(&bytes, 16);
        if n < 2 {
            return Err(FastFieldError::CorruptFormat);
        }
        let first = read_u64_le(&bytes, 0);
        let last = read_u64_le(&bytes, 8);
        let biased = read_u64_le(&bytes, 20);
        let rmin: i64 = ((biased as i128) - (RESIDUAL_BIAS as i128)) as i64;
        Ok(LinearInterpolReader { first, last, n, rmin, bw, data: bytes })
    }
}

/// Bounds on the packed length used to size headers.
pub(crate) proof fn lemma_pbl_bounds(n: nat, bw: u8)
    requires
        bw <= 64,
    ensures
        packed_byte_len(n, bw as nat) <= 8 * n,
        8 * packed_byte_len(n, bw as nat) >= n * (bw as nat),
{
    lemma_mul_inequality(bw as int, 64, n as int);
    assert(n * (bw as nat) <= 64 * n) by (nonlinear_arith)
        requires
            bw <= 64,
    ;
    lemma_div_is_ordered((n * (bw as nat) + 7) as int, (64 * n + 7) as int, 8);
    lemma_fundamental_div_mod_converse((64 * n + 7) as int, 8, (8 * n) as int, 7);
    lemma_fundamental_div_mod((n * (bw as nat) + 7) as int, 8);
    lemma_mod_bound((n * (bw as nat) + 7) as int, 8);
}

/// Header bytes written in sequence parse back to the written fields.
proof fn lemma_le_fields(
    body: Seq<u8>,
    hdr: Seq<u8>,
    old_len: int,
    first: u64,
    last: u64,
    n: u32,
    biased: u64,
    bw: u8,
)
    requires
        body.len() >= 29,
        hdr.len() == old_len + 29,
        0 <= old_len,
        forall|k: int| 0 <= k < 29 ==> #[trigger] body[k] == hdr[old_len + k],
        le64_at(hdr, old_len) == first,
        le64_at(hdr, old_len + 8) == last,
        le32_at(hdr, old_len + 16) == n,
        le64_at(hdr, old_len + 20) == biased,
        hdr[old_len + 28] == bw,
    ensures
        lin_first(body) == first,
        lin_last(body) == last,
        lin_n(body) == n,
        le64_at(body, 20) == biased,
        lin_bw(body) == bw,
{
    assert(le64_at(body, 0) == le64_at(hdr, old_len));
    assert(le64_at(body, 8) == le64_at(hdr, old_len + 8));
    assert(le32_at(body, 16) == le32_at(hdr, old_len + 16));
    assert(le64_at(body, 20) == le64_at(hdr, old_len + 20));
}

/// Random-access reader over one linear-interpolation body.
pub struct LinearInterpolReader {
    pub first: u64,
    pub last: u64,
    pub n: u32,
    pub rmin: i64,
    pub bw: u8,
    pub data: OwnedBytes,
}

impl LinearInterpolReader {
    pub open spec fn body(&self) -> Seq<u8> {
        ob_bytes(self.data)
    }
}

impl FastFieldCodecReader for LinearInterpolReader {
    open spec fn wf(&self) -> bool {
        &&& lin_wf(self.body())
        &&& self.first == lin_first(self.body())
        &&& self.last == lin_last(self.body())
        &&& self.n as int == lin_n(self.body())
        &&& self.rmin as int == lin_rmin(self.body())
        &&& self.bw == lin_bw(self.body())
    }

    open spec fn spec_get(&self, doc: u64) -> u64 {
        lin_value(self.body(), doc as int)
    }

    open spec fn spec_in_range(&self, doc: u64) -> bool {
        lin_in_range(self.body(), doc as int)
    }

    open spec fn spec_min_value(&self) -> u64 {
        if self.first <= self.last {
            self.first
        } else {
            self.last
        }
    }

    open spec fn spec_max_value(&self) -> u64 {
        if self.first <= self.last {
            self.last
        } else {
            self.first
        }
    }

    fn get_u64(&self, doc: u64) -> (r: u64) {
        if doc >= self.n as u64 {
            return self.first;
        }
        let len = ob_len(&self.data);
        let avail: u64 = 8 * (len as u64 - 29);
        proof {
            assert(((doc as int) + 1) * (self.bw as int) <= 0x1_0000_0000_0000_0000 * 64)
                by (nonlinear_arith)
                requires
                    doc <= u64::MAX && self.bw <= 64,
            ;
        }
        let need: u128 = ((doc as u128) + 1) * (self.bw as u128);
        if need <= avail as u128 {
            proof {
                assert((doc as nat) * (self.bw as nat) + (self.bw as nat) == (doc as nat + 1) * (
                self.bw as nat)) by (nonlinear_arith);
            }
            let l = line_exec(self.first, self.last, (self.n as u64) - 1, doc);
            let bit_off: u64 = 232 + doc * (self.bw as u64);
            let w = read_bits(&self.data, bit_off, self.bw);
            let t = l.wrapping_add(w);
            let r = t.wrapping_add_signed(self.rmin);
            proof {
                let m = 0x1_0000_0000_0000_0000int;
                let tr = t as int + self.rmin as int;
                if tr < 0 {
                    lemma_fundamental_div_mod_converse(tr, m, -1, tr + m);
                } else if tr > u64::MAX as int {
                    lemma_fundamental_div_mod_converse(tr, m, 1, tr - m);
                } else {
                    lemma_fundamental_div_mod_converse(tr, m, 0, tr);
                }
                assert(r as int == tr % m);
                if l + w > u64::MAX {
                    assert(l as int + w + self.rmin == m * 1 + tr);
                    lemma_mod_multiples_vanish(1, tr, m);
                } else {
                    lemma_mod_multiples_vanish(0, tr, m);
                }
                assert(r as int == (l as int + self.rmin + w) % m);
                assert(lin_value(self.body(), doc as int) == r);
            }
            r
        } else {
            self.first
        }
    }

    fn min_value(&self) -> (r: u64) {
        if self.first <= self.last {
            self.first
        } else {
            self.last
        }
    }

    fn max_value(&self) -> (r: u64) {
        if self.first <= self.last {
            self.last
        } else {
            self.first
        }
    }
}

} // verus!
