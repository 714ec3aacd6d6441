//! Codec selection, the column footer, and the dynamic reader.
//!
//! A serialized column is `<codec body> <footer>`, where the footer is
//! `<min: u64 LE> <max: u64 LE> <num_vals: u64 LE> <codec id: u8>`.  The
//! selector picks, among the applicable codecs, the one with the smallest
//! estimate; ties go to the earlier codec in the order bit-packed,
//! linear, multi-linear.

use vstd::prelude::*;
use crate::bits::{le64_at, write_u64_le, read_u64_le, lemma_le64_prefix, lemma_le64_skip};
use crate::buffer::{ob_bytes, ob_byte, ob_len, ob_slice};
use crate::stats::{FastFieldStats, lemma_seq_min_le, lemma_seq_max_ge};
use crate::bitpacked::{bp_value, bp_in_range, bp_wf, bp_body_decodes, BitpackedFastFieldCodec, BitpackedReader};
use crate::linearinterpol::{lin_value, lin_in_range, lin_wf, lin_body_decodes, LinearInterpolCodec, LinearInterpolReader};
use crate::multilinearinterpol::{mh_value, mh_in_range, mh_open_ok, mh_body_decodes, MultiLinearInterpolFastFieldCodec, MultiLinearInterpolFastFieldReader};
use crate::{FastFieldCodecReader, FastFieldError};
use ownedbytes::OwnedBytes;

verus! {

pub const BITPACKED_CODEC_ID: u8 = 1;

pub const LINEAR_CODEC_ID: u8 = 2;

pub const MULTI_LINEAR_CODEC_ID: u8 = 3;

pub const GCD_CODEC_ID: u8 = 4;

/// Well-formedness of a codec body behind a plain codec id.
pub open spec fn body_wf(id: u8, body: Seq<u8>) -> bool {
    if id == BITPACKED_CODEC_ID {
        bp_wf(body)
    } else if id == LINEAR_CODEC_ID {
        lin_wf(body)
    } else if id == MULTI_LINEAR_CODEC_ID {
        mh_open_ok(body)
    } else {
        false
    }
}

/// The value a codec body holds at `ord`, behind a plain codec id.
pub open spec fn body_value(id: u8, body: Seq<u8>, ord: int) -> u64 {
    if id == BITPACKED_CODEC_ID {
        bp_value(body, ord)
    } else if id == LINEAR_CODEC_ID {
        lin_value(body, ord)
    } else if id == MULTI_LINEAR_CODEC_ID {
        mh_value(body, ord)
    } else {
        0
    }
}

/// Whether `ord` is decodable behind a plain codec id.
pub open spec fn body_in_range(id: u8, body: Seq<u8>, ord: int) -> bool {
    if id == BITPACKED_CODEC_ID {
        bp_in_range(body, ord)
    } else if id == LINEAR_CODEC_ID {
        lin_in_range(body, ord)
    } else if id == MULTI_LINEAR_CODEC_ID {
        mh_in_range(body, ord)
    } else {
        false
    }
}

/// Codec id stored as the last byte of the column.
pub open spec fn ftr_id(bytes: Seq<u8>) -> u8 {
    bytes[bytes.len() - 1]
}

/// Statistics stored in the footer.
pub open spec fn ftr_stats(bytes: Seq<u8>) -> FastFieldStats {
    FastFieldStats {
        min_value: le64_at(bytes, bytes.len() - 25) as u64,
        max_value: le64_at(bytes, bytes.len() - 17) as u64,
        num_vals: le64_at(bytes, bytes.len() - 9) as u64,
    }
}

/// The codec body: everything before the footer.
pub open spec fn col_body(bytes: Seq<u8>) -> Seq<u8> {
    bytes.take(bytes.len() - 25)
}

/// Whether the whole column can be opened.
pub open spec fn dyn_open_ok(bytes: Seq<u8>) -> bool {
    &&& bytes.len() >= 25
    &&& if ftr_id(bytes) == GCD_CODEC_ID {
        crate::gcd::gcd_wf(col_body(bytes))
    } else {
        body_wf(ftr_id(bytes), col_body(bytes))
    }
}

/// The value the column decodes at `ord`, by the footer's codec id.
pub open spec fn dyn_value(bytes: Seq<u8>, ord: int) -> u64 {
    if ftr_id(bytes) == GCD_CODEC_ID {
        crate::gcd::gcd_value(col_body(bytes), ord)
    } else {
        body_value(ftr_id(bytes), col_body(bytes), ord)
    }
}

/// Whether `ord` is decodable from the column.
pub open spec fn dyn_in_range(bytes: Seq<u8>, ord: int) -> bool {
    &&& bytes.len() >= 25
    &&& if ftr_id(bytes) == GCD_CODEC_ID {
        crate::gcd::gcd_in_range(col_body(bytes), ord)
    } else {
        body_in_range(ftr_id(bytes), col_body(bytes), ord)
    }
}

/// The column decodes every ordinal of `vals` back to its value.
pub open spec fn dyn_decodes(bytes: Seq<u8>, vals: Seq<u64>) -> bool {
    forall|i: int|
        #![trigger dyn_value(bytes, i)]
        #![trigger dyn_in_range(bytes, i)]
        0 <= i < vals.len() ==> dyn_in_range(bytes, i) && dyn_value(bytes, i) == vals[i]
}

/// The codec the selector picks: smallest estimate among the applicable
/// codecs, ties to the earlier codec.
pub open spec fn spec_select(vals: Seq<u64>, stats: FastFieldStats) -> u8 {
    let bp = BitpackedFastFieldCodec::spec_estimate(stats);
    let lin_app = LinearInterpolCodec::spec_is_applicable(vals, stats);
    let use_lin = lin_app && LinearInterpolCodec::spec_estimate(vals) < bp;
    let best_so_far: nat = if use_lin {
        LinearInterpolCodec::spec_estimate(vals)
    } else {
        bp
    };
    if MultiLinearInterpolFastFieldCodec::spec_is_applicable(vals, stats)
        && MultiLinearInterpolFastFieldCodec::spec_estimate(vals) < best_so_far {
        MULTI_LINEAR_CODEC_ID
    } else if use_lin {
        LINEAR_CODEC_ID
    } else {
        BITPACKED_CODEC_ID
    }
}

/// Runs the selection: the returned codec is applicable, its estimate is
/// no larger than any other applicable codec's, and ties go to the
/// earlier codec in the enumeration order.
pub fn choose_codec(vals: &[u64], stats: FastFieldStats) -> (r: u8)
    requires
        stats.is_stats_of(vals@),
        vals@.len() < 0x1_0000_0000,
    ensures
        r == spec_select(vals@, stats),
        r == BITPACKED_CODEC_ID || r == LINEAR_CODEC_ID || r == MULTI_LINEAR_CODEC_ID,
        r == LINEAR_CODEC_ID ==> LinearInterpolCodec::spec_is_applicable(vals@, stats)
            && LinearInterpolCodec::spec_estimate(vals@)
            < BitpackedFastFieldCodec::spec_estimate(stats) && (
        MultiLinearInterpolFastFieldCodec::spec_is_applicable(vals@, stats)
            ==> LinearInterpolCodec::spec_estimate(vals@)
            <= MultiLinearInterpolFastFieldCodec::spec_estimate(vals@)),
        r == MULTI_LINEAR_CODEC_ID ==> MultiLinearInterpolFastFieldCodec::spec_is_applicable(
            vals@,
            stats,
        ) && MultiLinearInterpolFastFieldCodec::spec_estimate(vals@)
            < BitpackedFastFieldCodec::spec_estimate(stats) && (
        LinearInterpolCodec::spec_is_applicable(vals@, stats)
            ==> MultiLinearInterpolFastFieldCodec::spec_estimate(vals@)
            < LinearInterpolCodec::spec_estimate(vals@)),
        r == BITPACKED_CODEC_ID ==> (LinearInterpolCodec::spec_is_applicable(vals@, stats)
            ==> BitpackedFastFieldCodec::spec_estimate(stats)
            <= LinearInterpolCodec::spec_estimate(vals@)) && (
        MultiLinearInterpolFastFieldCodec::spec_is_applicable(vals@, stats)
            ==> BitpackedFastFieldCodec::spec_estimate(stats)
            <= MultiLinearInterpolFastFieldCodec::spec_estimate(vals@)),
{
    proof {
        if vals@.len() > 0 {
            lemma_seq_min_le(vals@, 0);
            lemma_seq_max_ge(vals@, 0);
        }
    }
    let bp_est = BitpackedFastFieldCodec::estimate(vals, stats);
    let lin_app = LinearInterpolCodec::is_applicable(vals, stats);
    let mut best = BITPACKED_CODEC_ID;
    let mut best_est = bp_est;
    if lin_app {
        let lin_est = LinearInterpolCodec::estimate(vals, stats);
        if lin_est < best_est {
            best = LINEAR_CODEC_ID;
            best_est = lin_est;
        }
    }
    if MultiLinearInterpolFastFieldCodec::is_applicable(vals, stats) {
        let multi_est = MultiLinearInterpolFastFieldCodec::estimate(vals, stats);
        if multi_est < best_est {
            best = MULTI_LINEAR_CODEC_ID;
            best_est = multi_est;
        }
    }
    best
}

/// Serializes a column: selects a codec, writes its body, then the
/// footer with the column statistics and the codec id.
#[verifier::rlimit(100)]
pub fn serialize_column(vals: &[u64], out: &mut Vec<u8>)
    requires
        vals@.len() < 0x1_0000_0000,
        old(out)@.len() + 5000 * vals@.len() + 5100 <= usize::MAX,
    ensures
        final(out)@.subrange(0, old(out)@.len() as int) == old(out)@,
        final(out)@.len() > old(out)@.len() + 25,
        dyn_open_ok(final(out)@.skip(old(out)@.len() as int)),
        ftr_id(final(out)@.skip(old(out)@.len() as int)) == spec_select(
            vals@,
            FastFieldStats::spec_compute(vals@),
        ),
        ftr_stats(final(out)@.skip(old(out)@.len() as int)) == FastFieldStats::spec_compute(vals@),
        dyn_decodes(final(out)@.skip(old(out)@.len() as int), vals@),
{
    let ghost old_len = out@.len() as int;
    let ghost prefix = out@;
    let stats = FastFieldStats::compute(vals);
    let id = choose_codec(vals, stats);
    if id == LINEAR_CODEC_ID {
        LinearInterpolCodec::serialize(out, vals, stats);
        proof {
            assert(out@.len() <= old_len + 5000 * vals@.len() + 5000);
        }
    } else if id == MULTI_LINEAR_CODEC_ID {
        MultiLinearInterpolFastFieldCodec::serialize(out, vals, stats);
        proof {
            assert(out@.len() <= old_len + 5000 * vals@.len() + 5000);
        }
    } else {
        BitpackedFastFieldCodec::serialize(out, vals, stats);
        proof {
            assert(out@.len() <= old_len + 5000 * vals@.len() + 5000);
        }
    }
    let ghost with_body = out@;
    let ghost body = out@.skip(old_len);
    proof {
        assert(with_body.len() + 25 <= usize::MAX);
    }
    write_u64_le(out, stats.min_value);
    let ghost snap1 = out@;
    write_u64_le(out, stats.max_value);
    let ghost snap2 = out@;
    write_u64_le(out, stats.num_vals);
    let ghost snap3 = out@;
    out.push(id);
    proof {
        let col = out@.skip(old_len);
        let blen = body.len() as int;
        assert(out@ =~= snap3.push(id));
        assert(snap3.subrange(0, snap2.len() as int) == snap2);
        assert(out@.subrange(0, snap3.len() as int) =~= snap3);
        assert(out@.subrange(0, old_len) =~= prefix);
        assert(col.len() == blen + 25);
        assert(ftr_id(col) == id);
        lemma_le64_prefix(snap1, snap2, with_body.len() as int);
        lemma_le64_prefix(snap2, snap3, with_body.len() as int);
        lemma_le64_prefix(snap3, out@, with_body.len() as int);
        lemma_le64_prefix(snap2, snap3, snap1.len() as int);
        lemma_le64_prefix(snap3, out@, snap1.len() as int);
        lemma_le64_prefix(snap3, out@, snap2.len() as int);
        lemma_le64_skip(out@, old_len, blen);
        lemma_le64_skip(out@, old_len, blen + 8);
        lemma_le64_skip(out@, old_len, blen + 16);
        assert(ftr_stats(col).min_value == stats.min_value);
        assert(ftr_stats(col).max_value == stats.max_value);
        assert(ftr_stats(col).num_vals == stats.num_vals);
        assert(ftr_stats(col) == stats);
        assert(col_body(col) =~= body);
        assert(with_body.subrange(0, old_len) == prefix);
        assert forall|i: int|
            #![trigger dyn_value(col, i)]
            #![trigger dyn_in_range(col, i)]
            0 <= i < vals@.len() implies dyn_in_range(col, i) && dyn_value(col, i) == vals@[i] by {
            if id == LINEAR_CODEC_ID {
                assert(lin_in_range(body, i) && lin_value(body, i) == vals@[i]);
            } else if id == MULTI_LINEAR_CODEC_ID {
                assert(mh_in_range(body, i) && mh_value(body, i) == vals@[i]);
            } else {
                assert(bp_in_range(body, i) && bp_value(body, i) == vals@[i]);
            }
        }
        assert(dyn_open_ok(col));
        assert(dyn_decodes(col, vals@));
    }
}

/// Serializes a column with the common-divisor transform enabled: when
/// all values share a divisor of at least two, the column is divided by
/// it and stored gcd-wrapped over the best inner codec for the reduced
/// values; otherwise this is plain codec selection.
#[verifier::rlimit(100)]
pub fn serialize_column_with_gcd(vals: &[u64], out: &mut Vec<u8>)
    requires
        vals@.len() < 0x1_0000_0000,
        old(out)@.len() + 5000 * vals@.len() + 5200 <= usize::MAX,
    ensures
        final(out)@.subrange(0, old(out)@.len() as int) == old(out)@,
        final(out)@.len() > old(out)@.len() + 25,
        dyn_open_ok(final(out)@.skip(old(out)@.len() as int)),
        ftr_stats(final(out)@.skip(old(out)@.len() as int)) == FastFieldStats::spec_compute(vals@),
        dyn_decodes(final(out)@.skip(old(out)@.len() as int), vals@),
        ftr_id(final(out)@.skip(old(out)@.len() as int)) == (
        if vals@.len() >= 1 && crate::gcd::GcdCodec::spec_is_applicable(vals@) {
            GCD_CODEC_ID
        } else {
            spec_select(vals@, FastFieldStats::spec_compute(vals@))
        }),
{
    let ghost old_len = out@.len() as int;
    let ghost prefix = out@;
    let g = crate::gcd::column_gcd(vals);
    if vals.len() == 0 || g < 2 {
        serialize_column(vals, out);
        return ;
    }
    let stats = FastFieldStats::compute(vals);
    crate::gcd::GcdCodec::serialize(out, vals, stats, g);
    let ghost with_body = out@;
    let ghost body = out@.skip(old_len);
    proof {
        assert(with_body.len() + 25 <= usize::MAX);
    }
    write_u64_le(out, stats.min_value);
    let ghost snap1 = out@;
    write_u64_le(out, stats.max_value);
    let ghost snap2 = out@;
    write_u64_le(out, stats.num_vals);
    let ghost snap3 = out@;
    out.push(GCD_CODEC_ID);
    proof {
        let col = out@.skip(old_len);
        let blen = body.len() as int;
        assert(out@ =~= snap3.push(GCD_CODEC_ID));
        assert(snap3.subrange(0, snap2.len() as int) == snap2);
        assert(out@.subrange(0, snap3.len() as int) =~= snap3);
        assert(out@.subrange(0, old_len) =~= prefix);
        assert(col.len() == blen + 25);
        assert(ftr_id(col) == GCD_CODEC_ID);
        lemma_le64_prefix(snap1, snap2, with_body.len() as int);
        lemma_le64_prefix(snap2, snap3, with_body.len() as int);
        lemma_le64_prefix(snap3, out@, with_body.len() as int);
        lemma_le64_prefix(snap2, snap3, snap1.len() as int);
        lemma_le64_prefix(snap3, out@, snap1.len() as int);
        lemma_le64_prefix(snap3, out@, snap2.len() as int);
        lemma_le64_skip(out@, old_len, blen);
        lemma_le64_skip(out@, old_len, blen + 8);
        lemma_le64_skip(out@, old_len, blen + 16);
        assert(ftr_stats(col) == stats);
        assert(col_body(col) =~= body);
        assert forall|i: int|
            #![trigger dyn_value(col, i)]
            #![trigger dyn_in_range(col, i)]
            0 <= i < vals@.len() implies dyn_in_range(col, i) && dyn_value(col, i) == vals@[i] by {
            assert(crate::gcd::gcd_in_range(body, i) && crate::gcd::gcd_value(body, i) == vals@[
                i]);
        }
        assert(dyn_open_ok(col));
        assert(dyn_decodes(col, vals@));
    }
}

/// One reader per codec, behind the footer's id.
pub enum DynReaderInner {
    Bitpacked(BitpackedReader),
    Linear(LinearInterpolReader),
    Multi(MultiLinearInterpolFastFieldReader),
    Gcd(crate::gcd::GcdReader),
}

/// Reader over a whole serialized column: footer statistics plus the
/// codec reader the footer's id selects.
pub struct DynamicReader {
    pub stats: FastFieldStats,
    pub inner: DynReaderInner,
    pub data: OwnedBytes,
}

impl DynamicReader {
    pub open spec fn body(&self) -> Seq<u8> {
        ob_bytes(self.data)
    }

    /// Number of values in the column, from the footer.
    pub fn num_vals(&self) -> (r: u64)
        ensures
            r == self.stats.num_vals,
    {
        self.stats.num_vals
    }
}

/// Opens the codec body behind an id; `CorruptFormat` on an unknown id
/// or an ill-formed body.
fn open_body(id: u8, body: OwnedBytes) -> (r: Result<DynReaderInner, FastFieldError>)
    ensures
        r is Ok <==> (if id == GCD_CODEC_ID {
            crate::gcd::gcd_wf(ob_bytes(body))
        } else {
            body_wf(id, ob_bytes(body))
        }),
        r matches Ok(inner) ==> match inner {
            DynReaderInner::Bitpacked(rd) => id == BITPACKED_CODEC_ID && rd.wf() && rd.body()
                == ob_bytes(body),
            DynReaderInner::Linear(rd) => id == LINEAR_CODEC_ID && rd.wf() && rd.body()
                == ob_bytes(body),
            DynReaderInner::Multi(rd) => id == MULTI_LINEAR_CODEC_ID && rd.wf() && rd.body()
                == ob_bytes(body),
            DynReaderInner::Gcd(rd) => id == GCD_CODEC_ID && rd.wf() && rd.body() == ob_bytes(
                body,
            ),
        },
{
    if id == BITPACKED_CODEC_ID {
        match BitpackedFastFieldCodec::open_from_bytes(body) {
            Ok(rd) => Ok(DynReaderInner::Bitpacked(rd)),
            Err(e) => Err(e),
        }
    } else if id == LINEAR_CODEC_ID {
        match LinearInterpolCodec::open_from_bytes(body) {
            Ok(rd) => Ok(DynReaderInner::Linear(rd)),
            Err(e) => Err(e),
        }
    } else if id == MULTI_LINEAR_CODEC_ID {
        match MultiLinearInterpolFastFieldCodec::open_from_bytes(body) {
            Ok(rd) => Ok(DynReaderInner::Multi(rd)),
            Err(e) => Err(e),
        }
    } else if id == GCD_CODEC_ID {
        match crate::gcd::GcdCodec::open_from_bytes(body) {
            Ok(rd) => Ok(DynReaderInner::Gcd(rd)),
            Err(e) => Err(e),
        }
    } else {
        Err(FastFieldError::CorruptFormat)
    }
}

/// Opens a serialized column: reads the footer, dispatches on the codec
/// id, and validates the codec body.  `CorruptFormat` on an unknown id
/// or an ill-formed body.
pub fn open_column(bytes: OwnedBytes) -> (r: Result<DynamicReader, FastFieldError>)
    ensures
        r is Ok <==> dyn_open_ok(ob_bytes(bytes)),
        r matches Ok(rd) ==> rd.wf() && ob_bytes(rd.data) == ob_bytes(bytes),
{
    let len = ob_len(&bytes);
    if len < 25 {
        return Err(FastFieldError::CorruptFormat);
    }
    let id = ob_byte(&bytes, len - 1);
    let min_value = read_u64_le(&bytes, len - 25);
    let max_value = read_u64_le(&bytes, len - 17);
    let num_vals = read_u64_le(&bytes, len - 9);
    let stats = FastFieldStats { min_value, max_value, num_vals };
    let body = ob_slice(&bytes, 0, len - 25);
    proof {
        assert(ob_bytes(body) =~= col_body(ob_bytes(bytes)));
        assert(stats == ftr_stats(ob_bytes(bytes)));
    }
    match open_body(id, body) {
        Ok(inner) => Ok(DynamicReader { stats, inner, data: bytes }),
        Err(e) => Err(e),
    }
}

impl FastFieldCodecReader for DynamicReader {
    open spec fn wf(&self) -> bool {
        &&& dyn_open_ok(self.body())
        &&& self.stats == ftr_stats(self.body())
        &&& match self.inner {
            DynReaderInner::Bitpacked(rd) => {
                &&& ftr_id(self.body()) == BITPACKED_CODEC_ID
                &&& rd.wf()
                &&& rd.body() == col_body(self.body())
            },
            DynReaderInner::Linear(rd) => {
                &&& ftr_id(self.body()) == LINEAR_CODEC_ID
                &&& rd.wf()
                &&& rd.body() == col_body(self.body())
            },
            DynReaderInner::Multi(rd) => {
                &&& ftr_id(self.body()) == MULTI_LINEAR_CODEC_ID
                &&& rd.wf()
                &&& rd.body() == col_body(self.body())
            },
            DynReaderInner::Gcd(rd) => {
                &&& ftr_id(self.body()) == GCD_CODEC_ID
                &&& rd.wf()
                &&& rd.body() == col_body(self.body())
            },
        }
    }

    open spec fn spec_get(&self, doc: u64) -> u64 {
        dyn_value(self.body(), doc as int)
    }

    open spec fn spec_in_range(&self, doc: u64) -> bool {
        dyn_in_range(self.body(), doc as int)
    }

    open spec fn spec_min_value(&self) -> u64 {
        self.stats.min_value
    }

    open spec fn spec_max_value(&self) -> u64 {
        self.stats.max_value
    }

    fn get_u64(&self, doc: u64) -> (r: u64) {
        match &self.inner {
            DynReaderInner::Bitpacked(rd) => rd.get_u64(doc),
            DynReaderInner::Linear(rd) => rd.get_u64(doc),
            DynReaderInner::Multi(rd) => rd.get_u64(doc),
            DynReaderInner::Gcd(rd) => rd.get_u64(doc),
        }
    }

    fn min_value(&self) -> (r: u64) {
        self.stats.min_value
    }

    fn max_value(&self) -> (r: u64) {
        self.stats.max_value
    }
}

} // verus!
