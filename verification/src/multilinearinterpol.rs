//! Multi-linear (chunked) interpolation codec.
//!
//! The column is cut into chunks of 512 ordinals and each chunk is stored
//! as its own linear-interpolation body.  Body layout:
//! `<chunk_count: u64 LE> <chunk_count + 1 byte offsets: u64 LE each>
//!  <one linear-interpolation body per chunk>`.
//! The offsets are relative to the start of this body; offset `j` and
//! `j + 1` delimit chunk `j`'s segment, so `get` is a table lookup
//! followed by one linear decode.  A chunk of one value is stored as the
//! two-value column that repeats it.

use vstd::prelude::*;
use vstd::arithmetic::div_mod::lemma_fundamental_div_mod;
use crate::bits::{le64_at, append_bytes, read_u64_le, write_u64_le};
use crate::buffer::{ob_bytes, ob_len, ob_slice};
use crate::linearinterpol::{
    lin_in_range, lin_value, lin_wf, lin_spec_bw, LinearInterpolCodec, LinearInterpolReader,
};
use crate::stats::{
    FastFieldStats, lemma_seq_min_le, lemma_seq_max_ge, lemma_seq_min_ge, lemma_seq_max_le,
};
use crate::bitpacked::{MAX_BODY_LEN, PPM_PER_BIT};
use crate::{FastFieldCodecReader, FastFieldError};
use ownedbytes::OwnedBytes;

verus! {

/// Ordinals per chunk.
pub const CHUNK_SIZE: u64 = 512;

/// Additive estimate bias of this codec, in millionths.
pub const MULTI_LINEAR_COST_PPM: u64 = 100000;

/// Estimated per-chunk header overhead, in millionths.
pub const MULTI_HEADER_COST_PPM: u64 = 6104;

pub open spec fn mh_cc(body: Seq<u8>) -> int {
    le64_at(body, 0) as int
}

pub open spec fn mh_off(body: Seq<u8>, j: int) -> int {
    le64_at(body, 8 + 8 * j) as int
}

/// Chunk `j`'s segment: one linear-interpolation body.
pub open spec fn mh_seg(body: Seq<u8>, j: int) -> Seq<u8> {
    body.subrange(mh_off(body, j), mh_off(body, j + 1))
}

/// The values chunk `j` stores: its slice of the column, except that a
/// single trailing value is doubled up.
pub open spec fn mh_chunk(vals: Seq<u64>, j: int) -> Seq<u64> {
    let cs = 512 * j;
    let ce = if 512 * (j + 1) <= vals.len() {
        512 * (j + 1)
    } else {
        vals.len() as int
    };
    if ce - cs == 1 {
        seq![vals[cs], vals[cs]]
    } else {
        vals.subrange(cs, ce)
    }
}

/// What `open_from_bytes` accepts: a sane chunk table whose every
/// segment is itself a well-formed linear body.
pub open spec fn mh_open_ok(body: Seq<u8>) -> bool {
    &&& 16 <= body.len() <= MAX_BODY_LEN
    &&& 1 <= mh_cc(body)
    &&& 8 + 8 * (mh_cc(body) + 1) <= body.len()
    &&& forall|j: int|
        0 <= j < mh_cc(body) ==> #[trigger] mh_off(body, j) <= mh_off(body, j + 1)
    &&& forall|j: int| 0 <= j < mh_cc(body) ==> #[trigger] mh_off(body, j + 1) <= body.len()
    &&& forall|j: int| 0 <= j < mh_cc(body) ==> lin_wf(#[trigger] mh_seg(body, j))
}

/// Whether ordinal `ord` can be decoded from the body.
pub open spec fn mh_in_range(body: Seq<u8>, ord: int) -> bool {
    &&& 0 <= ord
    &&& ord / 512 < mh_cc(body)
    &&& lin_in_range(mh_seg(body, ord / 512), ord % 512)
}

/// The value the body decodes at ordinal `ord`.
pub open spec fn mh_value(body: Seq<u8>, ord: int) -> u64 {
    lin_value(mh_seg(body, ord / 512), ord % 512)
}

/// The body decodes every ordinal of `vals` back to its value.
pub open spec fn mh_body_decodes(body: Seq<u8>, vals: Seq<u64>) -> bool {
    forall|i: int|
        #![trigger mh_value(body, i)]
        #![trigger mh_in_range(body, i)]
        0 <= i < vals.len() ==> mh_in_range(body, i) && mh_value(body, i) == vals[i]
}



/// Offsets that are pairwise ascending ascend across any span.
proof fn lemma_offs_ascend(offs: Seq<u64>, j: int, k: int)
    requires
        0 <= j <= k < offs.len(),
        forall|l: int| 0 <= l < offs.len() - 1 ==> #[trigger] offs[l] <= offs[l + 1],
    ensures
        offs[j] <= offs[k],
    decreases k - j,
{
    if j < k {
        lemma_offs_ascend(offs, j + 1, k);
    }
}

/// Appending one more segment keeps every earlier segment in place.
proof fn lemma_seg_extend(pre: Seq<u8>, cur: Seq<u8>, offs: Seq<u64>, bufs: Seq<Vec<u8>>, a: int)
    requires
        0 <= a < bufs.len(),
        offs.len() == bufs.len() + 1,
        cur == pre + bufs[a]@,
        pre.len() == offs[a],
        offs[a + 1] == offs[a] + bufs[a]@.len(),
        forall|k: int|
            0 <= k < a ==> #[trigger] pre.subrange(offs[k] as int, offs[k + 1] as int) == bufs[k]@,
        forall|k: int| 0 <= k < bufs.len() ==> #[trigger] offs[k] <= offs[k + 1],
    ensures
        forall|k: int|
            0 <= k < a + 1 ==> #[trigger] cur.subrange(offs[k] as int, offs[k + 1] as int)
                == bufs[k]@,
        cur.subrange(0, pre.len() as int) == pre,
{
    assert(cur.subrange(0, pre.len() as int) =~= pre);
    assert forall|k: int| 0 <= k < a + 1 implies #[trigger] cur.subrange(
        offs[k] as int,
        offs[k + 1] as int,
    ) == bufs[k]@ by {
        if k < a {
            lemma_offs_ascend(offs, k + 1, a);
            crate::bits::lemma_subrange_prefix(pre, cur, offs[k] as int, offs[k + 1] as int);
        } else {
            assert(cur.subrange(offs[k] as int, offs[k + 1] as int) =~= bufs[k]@);
        }
    }
}

/// An assembled body over a sane offset table whose segments each decode
/// their chunk decodes the whole column.
#[verifier::rlimit(100)]
proof fn lemma_mh_assembled(
    body: Seq<u8>,
    vals: Seq<u64>,
    offs: Seq<u64>,
    bufs: Seq<Vec<u8>>,
    cc: int,
    n: int,
    after_cc: Seq<u8>,
    after_table: Seq<u8>,
)
    requires
        1 <= cc <= n < 0x1_0000_0000,
        vals.len() == n,
        512 * cc >= n,
        bufs.len() == cc,
        offs.len() == cc + 1,
        offs[0] == 16 + 8 * cc,
        after_cc.len() == 8,
        le64_at(after_cc, 0) == cc,
        after_table.len() == 16 + 8 * cc,
        after_table.subrange(0, 8) == after_cc,
        forall|k: int| 0 <= k <= cc ==> #[trigger] le64_at(after_table, 8 + 8 * k) == offs[k],
        body.len() == offs[cc],
        body.subrange(0, after_table.len() as int) == after_table,
        forall|k: int|
            0 <= k < cc ==> #[trigger] body.subrange(offs[k] as int, offs[k + 1] as int)
                == bufs[k]@,
        forall|k: int| 0 <= k < cc ==> 29 <= (#[trigger] bufs[k]@).len() <= 4133,
        forall|k: int| 0 <= k < cc ==> lin_wf(#[trigger] bufs[k]@),
        forall|k: int|
            0 <= k < cc ==> crate::linearinterpol::lin_body_decodes(
                (#[trigger] bufs[k])@,
                mh_chunk(vals, k),
            ),
        forall|k: int| 0 <= k < cc ==> #[trigger] offs[k] <= offs[k + 1],
        forall|k: int| 0 <= k <= cc ==> 16 + 8 * cc <= #[trigger] offs[k],
        body.len() <= 16 + 8 * cc + 4133 * cc,
    ensures
        mh_open_ok(body),
        mh_body_decodes(body, vals),
{
    assert(after_table.len() <= body.len());
    assert(le64_at(body, 0) == cc) by {
        crate::bits::lemma_le64_prefix(after_cc, after_table, 0);
        crate::bits::lemma_le64_prefix(after_table, body, 0);
    }
    assert(mh_cc(body) == cc);
    assert forall|k: int| 0 <= k <= cc implies #[trigger] le64_at(body, 8 + 8 * k) == offs[k] by {
        crate::bits::lemma_le64_prefix(after_table, body, 8 + 8 * k);
    }
    assert forall|k: int| 0 <= k < cc implies #[trigger] mh_seg(body, k) == bufs[k]@ by {
        assert(mh_off(body, k) == offs[k] && mh_off(body, k + 1) == offs[k + 1]);
        assert(mh_seg(body, k) =~= body.subrange(offs[k] as int, offs[k + 1] as int));
    }
    assert(16 + 8 * cc + 4133 * cc <= 16 + 8 * n + 4133 * n) by (nonlinear_arith)
        requires
            cc <= n,
    ;
    assert(16 + 8 * n + 4133 * n <= MAX_BODY_LEN) by (nonlinear_arith)
        requires
            n < 0x1_0000_0000,
    ;
    assert forall|j: int| 0 <= j < cc implies #[trigger] mh_off(body, j + 1) <= body.len() by {
        lemma_offs_ascend(offs, j + 1, cc);
    }
    assert(mh_open_ok(body));
    assert forall|i: int|
        #![trigger mh_value(body, i)]
        #![trigger mh_in_range(body, i)]
        0 <= i < vals.len() implies mh_in_range(body, i) && mh_value(body, i) == vals[i] by {
        let cj = i / 512;
        let ci = i % 512;
        lemma_fundamental_div_mod(i, 512);
        assert(0 <= ci < 512);
        assert(cj < cc) by (nonlinear_arith)
            requires
                i == 512 * cj + ci && 0 <= ci < 512 && i < n && 512 * cc >= n,
        ;
        assert(cj >= 0);
        let chunk = mh_chunk(vals, cj);
        assert(crate::linearinterpol::lin_body_decodes(bufs[cj]@, chunk));
        assert(ci < chunk.len());
        assert(chunk[ci] == vals[i]);
        assert(lin_in_range(mh_seg(body, cj), ci) && lin_value(mh_seg(body, cj), ci) == chunk[ci]);
    }
    assert(mh_body_decodes(body, vals));
}

/// Multi-linear interpolation codec.
pub struct MultiLinearInterpolFastFieldCodec;

impl MultiLinearInterpolFastFieldCodec {
    /// Same applicability as the single-line codec.
    pub open spec fn spec_is_applicable(vals: Seq<u64>, stats: FastFieldStats) -> bool {
        &&& stats.num_vals >= 5
        &&& stats.num_vals < 0x1_0000_0000
        &&& stats.max_value - stats.min_value < 0x8000_0000_0000_0000
    }

    /// Cheap cost model: the single global line's residual width per
    /// value, plus amortized chunk headers, plus this codec's bias.  The
    /// per-chunk fit at serialization time can only do better.
    pub open spec fn spec_estimate(vals: Seq<u64>) -> nat {
        lin_spec_bw(vals) * (PPM_PER_BIT as nat) + (MULTI_HEADER_COST_PPM as nat) + (
        MULTI_LINEAR_COST_PPM as nat)
    }

    pub fn is_applicable(vals: &[u64], stats: FastFieldStats) -> (r: bool)
        requires
            stats.min_value <= stats.max_value,
        ensures
            r == Self::spec_is_applicable(vals@, stats),
    {
        stats.num_vals >= 5 && stats.num_vals < 0x1_0000_0000 && stats.max_value
            - stats.min_value < 0x8000_0000_0000_0000
    }

    pub fn estimate(vals: &[u64], stats: FastFieldStats) -> (r: u64)
        requires
            stats.is_stats_of(vals@),
            2 <= vals@.len() < 0x1_0000_0000,
            stats.max_value - stats.min_value < 0x8000_0000_0000_0000,
        ensures
            r as nat == Self::spec_estimate(vals@),
    {
        let (_rmin, _rmax, bw) = LinearInterpolCodec::residual_width(vals, stats);
        (bw as u64) * PPM_PER_BIT + MULTI_HEADER_COST_PPM + MULTI_LINEAR_COST_PPM
    }

    /// Writes the codec body; the appended bytes decode every ordinal of
    /// `vals` back to its value.
    #[verifier::rlimit(100)]
    pub fn serialize(out: &mut Vec<u8>, vals: &[u64], stats: FastFieldStats)
        requires
            stats.is_stats_of(vals@),
            1 <= vals@.len() < 0x1_0000_0000,
            stats.max_value - stats.min_value < 0x8000_0000_0000_0000,
            old(out)@.len() + 5000 * vals@.len() + 5000 <= usize::MAX,
        ensures
            final(out)@.subrange(0, old(out)@.len() as int) == old(out)@,
            mh_open_ok(final(out)@.skip(old(out)@.len() as int)),
            mh_body_decodes(final(out)@.skip(old(out)@.len() as int), vals@),
            final(out)@.len() <= old(out)@.len() + 5000 * vals@.len() + 5000,
    {
        let ghost old_len = out@.len() as int;
        let ghost prefix = out@;
        let n = vals.len();
        let cc: usize = (n + 511) / 512;
        proof {
            lemma_fundamental_div_mod((n + 511) as int, 512);
            assert(1 <= cc <= n);
            assert(512 * (cc as int) >= n);
        }
        let mut bufs: Vec<Vec<u8>> = Vec::new();
        let mut j: usize = 0;
        while j < cc
            invariant
                stats.is_stats_of(vals@),
                1 <= vals@.len() < 0x1_0000_0000,
                stats.max_value - stats.min_value < 0x8000_0000_0000_0000,
                n == vals@.len(),
                1 <= cc <= n,
                512 * (cc as int) >= n,
                cc == ((n + 511) / 512) as int,
                j <= cc,
                bufs@.len() == j,
                forall|l: int|
                    0 <= l < j ==> lin_wf(#[trigger] bufs@[l]@) && crate::linearinterpol::lin_body_decodes(
                        bufs@[l]@,
                        mh_chunk(vals@, l),
                    ) && 29 <= bufs@[l]@.len() <= 4133,
            decreases cc - j,
        {
            let cs: usize = j * 512;
            proof {
                assert(j * 512 <= (cc - 1) * 512) by (nonlinear_arith)
                    requires
                        j < cc,
                ;
            }
            proof {
                assert(cs < n) by (nonlinear_arith)
                    requires
                        j < cc && cc == ((n + 511) / 512) as int && (n + 511) / 512 * 512 <= n
                            + 511 && cs == j * 512,
                ;
            }
            let ce: usize = if 512 <= n - cs {
                cs + 512
            } else {
                n
            };
            let mut cvec: Vec<u64> = Vec::new();
            let mut t: usize = cs;
            while t < ce
                invariant
                    cs <= t <= ce <= vals@.len(),
                    n == vals@.len(),
                    cvec@ =~= vals@.subrange(cs as int, t as int),
                decreases ce - t,
            {
                let ghost pre = cvec@;
                cvec.push(vals[t]);
                proof {
                    assert(cvec@ =~= vals@.subrange(cs as int, t + 1));
                }
                t += 1;
            }
            if ce - cs == 1 {
                cvec.push(vals[cs]);
                proof {
                    assert(cvec@ =~= seq![vals@[cs as int], vals@[cs as int]]);
                }
            }
            proof {
                assert(cvec@ =~= mh_chunk(vals@, j as int));
                assert forall|k: int| 0 <= k < cvec@.len() implies stats.min_value <= #[trigger] cvec@[k]
                    <= stats.max_value by {
                    lemma_seq_min_le(vals@, if ce - cs == 1 { cs as int } else { cs + k });
                    lemma_seq_max_ge(vals@, if ce - cs == 1 { cs as int } else { cs + k });
                }
            }
            let cstats = FastFieldStats::compute(cvec.as_slice());
            proof {
                if cvec@.len() > 0 {
                    lemma_seq_min_ge(cvec@, stats.min_value);
                    lemma_seq_max_le(cvec@, stats.max_value);
                    lemma_seq_min_le(cvec@, 0);
                    lemma_seq_max_ge(cvec@, 0);
                }
            }
            let mut buf: Vec<u8> = Vec::new();
            LinearInterpolCodec::serialize(&mut buf, cvec.as_slice(), cstats);
            proof {
                assert(buf@.len() <= 29 + 8 * cvec@.len());
                assert(buf@.len() <= 4133);
                assert(buf@.subrange(0, 0) =~= Seq::<u8>::empty());
                assert(buf@.skip(0) =~= buf@);
            }
            bufs.push(buf);
            j += 1;
        }
        // offsets table: cc + 1 entries, the first one right after the table
        let mut offs: Vec<u64> = Vec::new();
        let mut cum: u64 = 16 + 8 * (cc as u64);
        offs.push(cum);
        let mut l: usize = 0;
        while l < cc
            invariant
                cc <= n < 0x1_0000_0000,
                bufs@.len() == cc,
                forall|k: int| 0 <= k < cc ==> 29 <= (#[trigger] bufs@[k]@).len() <= 4133,
                l <= cc,
                offs@.len() == l + 1,
                offs@[0] == 16 + 8 * cc,
                cum == offs@[l as int],
                forall|k: int| 0 <= k <= l ==> #[trigger] offs@[k] <= 16 + 8 * cc + 4133 * k,
                forall|k: int| 0 <= k <= l ==> 16 + 8 * cc <= #[trigger] offs@[k],
                forall|k: int|
                    0 <= k < l ==> #[trigger] offs@[k + 1] == offs@[k] + bufs@[k]@.len(),
                forall|k: int| 0 <= k < l ==> #[trigger] offs@[k] <= offs@[k + 1],
            decreases cc - l,
        {
            proof {
                assert(cum + 4133 <= 16 + 8 * cc + 4133 * (l + 1)) by (nonlinear_arith)
                    requires
                        cum <= 16 + 8 * cc + 4133 * l,
                ;
                assert(16 + 8 * cc + 4133 * (l + 1) < 0x1_0000_0000_0000_0000)
                    by (nonlinear_arith)
                    requires
                        l < cc && cc < 0x1_0000_0000,
                ;
            }
            cum = cum + (bufs[l].len() as u64);
            offs.push(cum);
            l += 1;
        }
        // assemble the body, then append it
        let mut body_vec: Vec<u8> = Vec::new();
        write_u64_le(&mut body_vec, cc as u64);
        let ghost after_cc = body_vec@;
        let mut w: usize = 0;
        while w < offs.len()
            invariant
                1 <= cc <= n < 0x1_0000_0000,
                5000 * n + 5000 <= usize::MAX,
                offs@.len() == cc + 1,
                w <= cc + 1,
                after_cc.len() == 8,
                le64_at(after_cc, 0) == cc as u64,
                body_vec@.len() == 8 + 8 * w,
                body_vec@.subrange(0, 8) == after_cc,
                forall|k: int|
                    0 <= k < w ==> #[trigger] le64_at(body_vec@, 8 + 8 * k) == offs@[k],
            decreases offs@.len() - w,
        {
            let ghost pre = body_vec@;
            write_u64_le(&mut body_vec, offs[w]);
            proof {
                crate::bits::lemma_subrange_prefix(pre, body_vec@, 0, 8);
                assert forall|k: int| 0 <= k < w + 1 implies #[trigger] le64_at(
                    body_vec@,
                    8 + 8 * k,
                ) == offs@[k] by {
                    if k < w {
                        crate::bits::lemma_le64_prefix(pre, body_vec@, 8 + 8 * k);
                    } else {
                        assert(le64_at(body_vec@, pre.len() as int) == offs@[k]);
                    }
                }
            }
            w += 1;
        }
        let ghost after_table = body_vec@;
        let mut a: usize = 0;
        while a < cc
            invariant
                1 <= cc <= n < 0x1_0000_0000,
                5000 * n + 5000 <= usize::MAX,
                bufs@.len() == cc,
                offs@.len() == cc + 1,
                offs@[0] == 16 + 8 * cc,
                after_table.len() == 16 + 8 * cc,
                forall|k: int| 0 <= k <= cc ==> 16 + 8 * cc <= #[trigger] offs@[k],
                forall|k: int| 0 <= k < cc ==> 29 <= (#[trigger] bufs@[k]@).len() <= 4133,
                forall|k: int|
                    0 <= k < cc ==> #[trigger] offs@[k + 1] == offs@[k] + bufs@[k]@.len(),
                forall|k: int| 0 <= k < cc ==> #[trigger] offs@[k] <= offs@[k + 1],
                a <= cc,
                body_vec@.len() == offs@[a as int],
                body_vec@.len() <= 16 + 8 * cc + 4133 * a,
                body_vec@.subrange(0, after_table.len() as int) == after_table,
                forall|k: int|
                    0 <= k < a ==> #[trigger] body_vec@.subrange(offs@[k] as int, offs@[k + 1] as int)
                        == bufs@[k]@,
            decreases cc - a,
        {
            let ghost pre = body_vec@;
            let buf = &bufs[a];
            proof {
                assert(16 + 8 * cc + 4133 * (a as int) + 4133 <= 16 + 8 * n + 4133 * n + 4133)
                    by (nonlinear_arith)
                    requires
                        a < cc && cc <= n,
                ;
                assert(16 + 8 * n + 4133 * n + 4133 <= 5000 * n + 5000) by (nonlinear_arith)
                    requires
                        1 <= n,
                ;
                assert(body_vec@.len() + buf@.len() <= usize::MAX);
                assert(16 + 8 * cc + 4133 * (a as int) + 4133 <= 16 + 8 * cc + 4133 * (a + 1))
                    by (nonlinear_arith);
            }
            append_bytes(&mut body_vec, buf);
            proof {
                lemma_seg_extend(pre, body_vec@, offs@, bufs@, a as int);
                crate::bits::lemma_subrange_prefix(pre, body_vec@, 0, after_table.len() as int);
            }
            a += 1;
        }
        proof {
            assert(body_vec@.len() <= 16 + 8 * cc + 4133 * cc) by (nonlinear_arith)
                requires
                    body_vec@.len() <= 16 + 8 * (cc as int) + 4133 * (cc as int),
            ;
            lemma_mh_assembled(
                body_vec@,
                vals@,
                offs@,
                bufs@,
                cc as int,
                n as int,
                after_cc,
                after_table,
            );
            assert(16 + 8 * cc + 4133 * cc <= 5000 * n + 5000) by (nonlinear_arith)
                requires
                    1 <= cc <= n,
            ;
        }
        proof {
            assert(out@.len() + body_vec@.len() <= usize::MAX);
        }
        append_bytes(out, &body_vec);
        proof {
            assert(out@.subrange(0, old_len) =~= prefix);
            assert(out@.skip(old_len) =~= body_vec@);
        }
    }


    /// Builds a reader; `CorruptFormat` when the table is truncated, the
    /// offsets are not monotone within the body, or a segment is not a
    /// well-formed linear body.
    pub fn open_from_bytes(bytes: OwnedBytes) -> (r: Result<
        MultiLinearInterpolFastFieldReader,
        FastFieldError,
    >)
        ensures
            r is Ok <==> mh_open_ok(ob_bytes(bytes)),
            r matches Ok(rd) ==> rd.wf() && ob_bytes(rd.data) == ob_bytes(bytes),
    {
        let len = ob_len(&bytes);
        if len < 16 || (len as u64) > MAX_BODY_LEN {
            return Err(FastFieldError::CorruptFormat);
        }
        let cc64 = read_u64_le(&bytes, 0);
        if cc64 < 1 {
            return Err(FastFieldError::CorruptFormat);
        }
        if ((cc64 as u128) + 1) * 8 + 8 > len as u128 {
            return Err(FastFieldError::CorruptFormat);
        }
        let cc = cc64 as usize;
        let mut readers: Vec<LinearInterpolReader> = Vec::new();
        let mut j: usize = 0;
        while j < cc
            invariant
                ob_bytes(bytes).len() == len,
                16 <= len,
                len as u64 <= MAX_BODY_LEN,
                cc == cc64 as int,
                1 <= cc64,
                mh_cc(ob_bytes(bytes)) == cc64 as int,
                8 + 8 * (cc64 as int + 1) <= len,
                j <= cc,
                readers@.len() == j,
                forall|l: int|
                    0 <= l < j ==> #[trigger] mh_off(ob_bytes(bytes), l) <= mh_off(
                        ob_bytes(bytes),
                        l + 1,
                    ),
                forall|l: int| 0 <= l < j ==> #[trigger] mh_off(ob_bytes(bytes), l + 1) <= len,
                forall|l: int| 0 <= l < j ==> lin_wf(#[trigger] mh_seg(ob_bytes(bytes), l)),
                forall|l: int|
                    0 <= l < j ==> (#[trigger] readers@[l]).wf() && readers@[l].body() == mh_seg(
                        ob_bytes(bytes),
                        l,
                    ),
            decreases cc - j,
        {
            let off_a = read_u64_le(&bytes, 8 + 8 * j);
            let off_b = read_u64_le(&bytes, 16 + 8 * j);
            if off_a > off_b || off_b > len as u64 {
                proof {
                    let body = ob_bytes(bytes);
                    if off_a > off_b {
                        assert(!(mh_off(body, j as int) <= mh_off(body, j as int + 1)));
                    } else {
                        assert(!(mh_off(body, j as int + 1) <= body.len()));
                    }
                    assert(!mh_open_ok(body));
                }
                return Err(FastFieldError::CorruptFormat);
            }
            let seg = ob_slice(&bytes, off_a as usize, off_b as usize);
            proof {
                assert(ob_bytes(seg) =~= mh_seg(ob_bytes(bytes), j as int));
            }
            match LinearInterpolCodec::open_from_bytes(seg) {
                Ok(rd) => {
                    readers.push(rd);
                },
                Err(e) => {
                    return Err(e);
                },
            }
            j += 1;
        }
        Ok(MultiLinearInterpolFastFieldReader { readers, data: bytes })
    }
}

/// Random-access reader over one multi-linear body: a parsed table of
/// per-chunk linear readers sharing the backing buffer.
pub struct MultiLinearInterpolFastFieldReader {
    pub readers: Vec<LinearInterpolReader>,
    pub data: OwnedBytes,
}

impl MultiLinearInterpolFastFieldReader {
    pub open spec fn body(&self) -> Seq<u8> {
        ob_bytes(self.data)
    }
}

impl FastFieldCodecReader for MultiLinearInterpolFastFieldReader {
    open spec fn wf(&self) -> bool {
        &&& mh_open_ok(self.body())
        &&& self.readers@.len() == mh_cc(self.body())
        &&& forall|j: int|
            0 <= j < self.readers@.len() ==> (#[trigger] self.readers@[j]).wf()
                && self.readers@[j].body() == mh_seg(self.body(), j)
    }

    open spec fn spec_get(&self, doc: u64) -> u64 {
        mh_value(self.body(), doc as int)
    }

    open spec fn spec_in_range(&self, doc: u64) -> bool {
        mh_in_range(self.body(), doc as int)
    }

    open spec fn spec_min_value(&self) -> u64 {
        self.readers@[0].spec_min_value()
    }

    open spec fn spec_max_value(&self) -> u64 {
        self.readers@[0].spec_max_value()
    }

    fn get_u64(&self, doc: u64) -> (r: u64) {
        let j = doc / 512;
        if j >= self.readers.len() as u64 {
            return 0;
        }
        let rd = &self.readers[j as usize];
        rd.get_u64(doc % 512)
    }

    fn min_value(&self) -> (r: u64) {
        self.readers[0].min_value()
    }

    fn max_value(&self) -> (r: u64) {
        self.readers[0].max_value()
    }
}

} // verus!
