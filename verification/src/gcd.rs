//! Common-divisor wrapper codec.
//!
//! When every value in a column shares a divisor `g >= 2`, the column is
//! divided by `g` and the reduced column is stored under an inner codec;
//! reads multiply back.  Body layout:
//! `<g: u64 LE> <min_before_div: u64 LE> <inner codec id: u8> <inner body>`.

use vstd::prelude::*;
use vstd::arithmetic::div_mod::{
    lemma_fundamental_div_mod, lemma_fundamental_div_mod_converse, lemma_mod_multiples_basic,
};
use crate::bits::{le64_at, write_u64_le, read_u64_le, lemma_le64_prefix, lemma_le64_skip};
use crate::buffer::{ob_bytes, ob_byte, ob_len, ob_slice};
use crate::stats::{FastFieldStats, lemma_seq_min_le, lemma_seq_max_ge};
use crate::bitpacked::{BitpackedFastFieldCodec, BitpackedReader};
use crate::linearinterpol::{LinearInterpolCodec, LinearInterpolReader};
use crate::multilinearinterpol::{MultiLinearInterpolFastFieldCodec, MultiLinearInterpolFastFieldReader};
use crate::dynamic::{
    body_wf, body_value, body_in_range, choose_codec, BITPACKED_CODEC_ID, LINEAR_CODEC_ID,
    MULTI_LINEAR_CODEC_ID,
};
use crate::{FastFieldCodecReader, FastFieldError};
use ownedbytes::OwnedBytes;

verus! {

/// Greatest common divisor, by Euclid's algorithm.
pub open spec fn spec_gcd(a: nat, b: nat) -> nat
    decreases b,
{
    if b == 0 {
        a
    } else {
        spec_gcd(b, a % b)
    }
}

/// Common divisor of the first `k` values (zero for an empty prefix).
pub open spec fn seq_gcd_upto(s: Seq<u64>, k: int) -> nat
    decreases k,
{
    if k <= 0 {
        0
    } else {
        spec_gcd(seq_gcd_upto(s, k - 1), s[k - 1] as nat)
    }
}

/// The greatest common divisor divides both arguments.
pub proof fn lemma_gcd_divides(a: nat, b: nat)
    requires
        spec_gcd(a, b) > 0,
    ensures
        a % spec_gcd(a, b) == 0,
        b % spec_gcd(a, b) == 0,
    decreases b,
{
    let g = spec_gcd(a, b);
    if b == 0 {
        lemma_mod_multiples_basic(0, a as int);
        if a > 0 {
            lemma_fundamental_div_mod_converse(a as int, a as int, 1, 0);
        }
    } else {
        lemma_gcd_divides(b, a % b);
        lemma_fundamental_div_mod(a as int, b as int);
        let q = a as int / b as int;
        let r = (a % b) as int;
        let kb = b as int / g as int;
        let kr = r / g as int;
        lemma_fundamental_div_mod(b as int, g as int);
        lemma_fundamental_div_mod(r, g as int);
        assert(a as int == g as int * kb * q + g as int * kr);
        assert(g as int * kb * q + g as int * kr == g as int * (kb * q + kr)) by (nonlinear_arith);
        lemma_fundamental_div_mod_converse(a as int, g as int, kb * q + kr, 0);
    }
}

/// A zero divisor means every argument was zero.
pub proof fn lemma_gcd_zero(a: nat, b: nat)
    requires
        spec_gcd(a, b) == 0,
    ensures
        a == 0 && b == 0,
    decreases b,
{
    if b != 0 {
        lemma_gcd_zero(b, a % b);
    }
}

/// A zero running divisor means every value in the prefix is zero.
pub proof fn lemma_seq_gcd_zero(s: Seq<u64>, m: int, i: int)
    requires
        0 <= i < m <= s.len(),
        seq_gcd_upto(s, m) == 0,
    ensures
        s[i] == 0,
    decreases m,
{
    lemma_gcd_zero(seq_gcd_upto(s, m - 1), s[m - 1] as nat);
    if i < m - 1 {
        lemma_seq_gcd_zero(s, m - 1, i);
    }
}

/// Divisibility carries through the running fold: the common divisor of
/// a prefix divides every value in it.
pub proof fn lemma_seq_gcd_divides(s: Seq<u64>, k: int, i: int)
    requires
        0 <= i < k <= s.len(),
        seq_gcd_upto(s, k) > 0,
    ensures
        (s[i] as nat) % seq_gcd_upto(s, k) == 0,
    decreases k,
{
    let g = seq_gcd_upto(s, k);
    let gp = seq_gcd_upto(s, k - 1);
    lemma_gcd_divides(gp, s[k - 1] as nat);
    if i == k - 1 {
    } else if gp == 0 {
        lemma_seq_gcd_zero(s, k - 1, i);
        assert((s[i] as nat) % g == 0);
    } else {
        assert(gp % g == 0);
        lemma_seq_gcd_divides(s, k - 1, i);
        // transitivity: g divides gp and gp divides s[i]
        lemma_fundamental_div_mod(s[i] as int, gp as int);
        lemma_fundamental_div_mod(gp as int, g as int);
        let q1 = s[i] as int / gp as int;
        let q2 = gp as int / g as int;
        assert(s[i] as int == g as int * q2 * q1) by (nonlinear_arith)
            requires
                s[i] as int == gp as int * q1 + 0 && gp as int == g as int * q2 + 0,
        ;
        assert(g as int * q2 * q1 == g as int * (q2 * q1)) by (nonlinear_arith);
        lemma_fundamental_div_mod_converse(s[i] as int, g as int, q2 * q1, 0);
    }
}

/// Euclid's algorithm.
pub fn gcd_u64(a: u64, b: u64) -> (r: u64)
    ensures
        r as nat == spec_gcd(a as nat, b as nat),
    decreases b,
{
    let mut x = a;
    let mut y = b;
    while y != 0
        invariant
            spec_gcd(x as nat, y as nat) == spec_gcd(a as nat, b as nat),
        decreases y,
    {
        let t = x % y;
        x = y;
        y = t;
    }
    x
}

/// Common divisor of a whole column: the fold of `spec_gcd` over it.
pub fn column_gcd(vals: &[u64]) -> (r: u64)
    ensures
        r as nat == seq_gcd_upto(vals@, vals@.len() as int),
{
    let mut g: u64 = 0;
    let mut i: usize = 0;
    while i < vals.len()
        invariant
            i <= vals@.len(),
            g as nat == seq_gcd_upto(vals@, i as int),
        decreases vals@.len() - i,
    {
        g = gcd_u64(g, vals[i]);
        i += 1;
    }
    g
}

pub open spec fn gcd_g(body: Seq<u8>) -> nat {
    le64_at(body, 0)
}

pub open spec fn gcd_min_before(body: Seq<u8>) -> nat {
    le64_at(body, 8)
}

pub open spec fn gcd_inner_id(body: Seq<u8>) -> u8 {
    body[16]
}

pub open spec fn gcd_inner_body(body: Seq<u8>) -> Seq<u8> {
    body.skip(17)
}

/// A well-formed wrapper body: a positive divisor over a well-formed
/// inner body.
pub open spec fn gcd_wf(body: Seq<u8>) -> bool {
    &&& body.len() >= 17
    &&& gcd_g(body) >= 1
    &&& body_wf(gcd_inner_id(body), gcd_inner_body(body))
}

pub open spec fn gcd_in_range(body: Seq<u8>, ord: int) -> bool {
    body_in_range(gcd_inner_id(body), gcd_inner_body(body), ord)
}

/// The value the wrapper decodes: the inner value scaled back up.
pub open spec fn gcd_value(body: Seq<u8>, ord: int) -> u64 {
    ((gcd_g(body) * body_value(gcd_inner_id(body), gcd_inner_body(body), ord))
        % 0x1_0000_0000_0000_0000) as u64
}

/// The body decodes every ordinal of `vals` back to its value.
pub open spec fn gcd_body_decodes(body: Seq<u8>, vals: Seq<u64>) -> bool {
    forall|i: int|
        #![trigger gcd_value(body, i)]
        #![trigger gcd_in_range(body, i)]
        0 <= i < vals.len() ==> gcd_in_range(body, i) && gcd_value(body, i) == vals[i]
}

/// Common-divisor wrapper codec.
pub struct GcdCodec;

impl GcdCodec {
    /// Applicable when the column's common divisor is at least two.
    pub open spec fn spec_is_applicable(vals: Seq<u64>) -> bool {
        seq_gcd_upto(vals, vals.len() as int) >= 2
    }

    /// Writes the wrapper body: the divisor, the smallest value before
    /// division, the inner codec id picked for the reduced column, and
    /// the inner body.
    #[verifier::rlimit(100)]
    pub fn serialize(out: &mut Vec<u8>, vals: &[u64], stats: FastFieldStats, g: u64) -> (inner_id:
        u8)
        requires
            stats.is_stats_of(vals@),
            1 <= vals@.len() < 0x1_0000_0000,
            g >= 2,
            g as nat == seq_gcd_upto(vals@, vals@.len() as int),
            old(out)@.len() + 5000 * vals@.len() + 5100 <= usize::MAX,
        ensures
            final(out)@.subrange(0, old(out)@.len() as int) == old(out)@,
            final(out)@.len() <= old(out)@.len() + 5000 * vals@.len() + 5100,
            final(out)@.len() >= old(out)@.len() + 17,
            gcd_wf(final(out)@.skip(old(out)@.len() as int)),
            gcd_body_decodes(final(out)@.skip(old(out)@.len() as int), vals@),
            inner_id == gcd_inner_id(final(out)@.skip(old(out)@.len() as int)),
    {
        let ghost old_len = out@.len() as int;
        let ghost prefix = out@;
        let n = vals.len();
        let mut reduced: Vec<u64> = Vec::new();
        let mut i: usize = 0;
        while i < n
            invariant
                n == vals@.len() < 0x1_0000_0000,
                g >= 2,
                g as nat == seq_gcd_upto(vals@, vals@.len() as int),
                i <= n,
                reduced@.len() == i,
                forall|k: int| 0 <= k < i ==> #[trigger] reduced@[k] == vals@[k] as u64 / g,
                forall|k: int|
                    0 <= k < i ==> g * #[trigger] reduced@[k] == vals@[k],
            decreases n - i,
        {
            let q = vals[i] / g;
            proof {
                lemma_seq_gcd_divides(vals@, vals@.len() as int, i as int);
                lemma_fundamental_div_mod(vals@[i as int] as int, g as int);
                assert(g * q == vals@[i as int]);
            }
            reduced.push(q);
            i += 1;
        }
        let rstats = FastFieldStats::compute(reduced.as_slice());
        proof {
            if reduced@.len() > 0 {
                lemma_seq_min_le(reduced@, 0);
                lemma_seq_max_ge(reduced@, 0);
            }
        }
        let inner_id = choose_codec(reduced.as_slice(), rstats);
        write_u64_le(out, g);
        write_u64_le(out, stats.min_value);
        out.push(inner_id);
        let ghost hdr = out@;
        if inner_id == LINEAR_CODEC_ID {
            LinearInterpolCodec::serialize(out, reduced.as_slice(), rstats);
        } else if inner_id == MULTI_LINEAR_CODEC_ID {
            MultiLinearInterpolFastFieldCodec::serialize(out, reduced.as_slice(), rstats);
        } else {
            BitpackedFastFieldCodec::serialize(out, reduced.as_slice(), rstats);
        }
        proof {
            let body = out@.skip(old_len);
            let inner = out@.skip(old_len + 17);
            assert(out@.subrange(0, old_len + 17) == hdr) by {
                assert(out@.subrange(0, old_len + 17) =~= hdr);
            }
            assert(out@.subrange(0, old_len) =~= prefix);
            lemma_le64_prefix(hdr, out@, old_len);
            lemma_le64_prefix(hdr, out@, old_len + 8);
            lemma_le64_skip(out@, old_len, 0);
            lemma_le64_skip(out@, old_len, 8);
            assert(gcd_g(body) == g);
            assert(gcd_inner_id(body) == inner_id) by {
                assert(body[16] == out@[old_len + 16]);
                assert(out@[old_len + 16] == hdr[old_len + 16]);
            }
            assert(gcd_inner_body(body) =~= inner);
            assert(gcd_wf(body));
            assert forall|i2: int|
                #![trigger gcd_value(body, i2)]
                #![trigger gcd_in_range(body, i2)]
                0 <= i2 < vals@.len() implies gcd_in_range(body, i2) && gcd_value(body, i2)
                == vals@[i2] by {
                assert(body_in_range(inner_id, inner, i2) && body_value(inner_id, inner, i2)
                    == reduced@[i2]);
                assert(g * reduced@[i2] == vals@[i2]);
                assert((g * reduced@[i2]) % 0x1_0000_0000_0000_0000 == vals@[i2] as int);
            }
            assert(gcd_body_decodes(body, vals@));
        }
        inner_id
    }

    /// Builds a reader over a wrapper body; `CorruptFormat` when the
    /// header is truncated, the divisor is zero, or the inner body is
    /// ill-formed.
    pub fn open_from_bytes(bytes: OwnedBytes) -> (r: Result<GcdReader, FastFieldError>)
        ensures
            r is Ok <==> gcd_wf(ob_bytes(bytes)),
            r matches Ok(rd) ==> rd.wf() && ob_bytes(rd.data) == ob_bytes(bytes),
    {
        let len = ob_len(&bytes);
        if len < 17 {
            return Err(FastFieldError::CorruptFormat);
        }
        let g = read_u64_le(&bytes, 0);
        if g < 1 {
            return Err(FastFieldError::CorruptFormat);
        }
        let min_before = read_u64_le(&bytes, 8);
        let inner_id = ob_byte(&bytes, 16);
        let inner_bytes = ob_slice(&bytes, 17, len);
        proof {
            assert(ob_bytes(inner_bytes) =~= gcd_inner_body(ob_bytes(bytes)));
        }
        match open_gcd_inner(inner_id, inner_bytes) {
            Ok(inner) => Ok(GcdReader { g, min_before, inner, data: bytes }),
            Err(e) => Err(e),
        }
    }
}

/// Opens the inner body of a wrapper behind its id.
fn open_gcd_inner(id: u8, body: OwnedBytes) -> (r: Result<GcdInnerReader, FastFieldError>)
    ensures
        r is Ok <==> body_wf(id, ob_bytes(body)),
        r matches Ok(inner) ==> match inner {
            GcdInnerReader::Bitpacked(rd) => id == BITPACKED_CODEC_ID && rd.wf() && rd.body()
                == ob_bytes(body),
            GcdInnerReader::Linear(rd) => id == LINEAR_CODEC_ID && rd.wf() && rd.body()
                == ob_bytes(body),
            GcdInnerReader::Multi(rd) => id == MULTI_LINEAR_CODEC_ID && rd.wf() && rd.body()
                == ob_bytes(body),
        },
{
    if id == BITPACKED_CODEC_ID {
        match BitpackedFastFieldCodec::open_from_bytes(body) {
            Ok(rd) => Ok(GcdInnerReader::Bitpacked(rd)),
            Err(e) => Err(e),
        }
    } else if id == LINEAR_CODEC_ID {
        match LinearInterpolCodec::open_from_bytes(body) {
            Ok(rd) => Ok(GcdInnerReader::Linear(rd)),
            Err(e) => Err(e),
        }
    } else if id == MULTI_LINEAR_CODEC_ID {
        match MultiLinearInterpolFastFieldCodec::open_from_bytes(body) {
            Ok(rd) => Ok(GcdInnerReader::Multi(rd)),
            Err(e) => Err(e),
        }
    } else {
        Err(FastFieldError::CorruptFormat)
    }
}

/// Inner reader of the wrapper, one per supported codec.
pub enum GcdInnerReader {
    Bitpacked(BitpackedReader),
    Linear(LinearInterpolReader),
    Multi(MultiLinearInterpolFastFieldReader),
}

/// Random-access reader over one wrapper body.
pub struct GcdReader {
    pub g: u64,
    pub min_before: u64,
    pub inner: GcdInnerReader,
    pub data: OwnedBytes,
}

impl GcdReader {
    pub open spec fn body(&self) -> Seq<u8> {
        ob_bytes(self.data)
    }
}

impl FastFieldCodecReader for GcdReader {
    open spec fn wf(&self) -> bool {
        &&& gcd_wf(self.body())
        &&& self.g as nat == gcd_g(self.body())
        &&& self.min_before as nat == gcd_min_before(self.body())
        &&& match self.inner {
            GcdInnerReader::Bitpacked(rd) => {
                &&& gcd_inner_id(self.body()) == BITPACKED_CODEC_ID
                &&& rd.wf()
                &&& rd.body() == gcd_inner_body(self.body())
            },
            GcdInnerReader::Linear(rd) => {
                &&& gcd_inner_id(self.body()) == LINEAR_CODEC_ID
                &&& rd.wf()
                &&& rd.body() == gcd_inner_body(self.body())
            },
            GcdInnerReader::Multi(rd) => {
                &&& gcd_inner_id(self.body()) == MULTI_LINEAR_CODEC_ID
                &&& rd.wf()
                &&& rd.body() == gcd_inner_body(self.body())
            },
        }
    }

    open spec fn spec_get(&self, doc: u64) -> u64 {
        gcd_value(self.body(), doc as int)
    }

    open spec fn spec_in_range(&self, doc: u64) -> bool {
        gcd_in_range(self.body(), doc as int)
    }

    open spec fn spec_min_value(&self) -> u64 {
        self.min_before
    }

    open spec fn spec_max_value(&self) -> u64 {
        self.min_before
    }

    fn get_u64(&self, doc: u64) -> (r: u64) {
        let w = match &self.inner {
            GcdInnerReader::Bitpacked(rd) => rd.get_u64(doc),
            GcdInnerReader::Linear(rd) => rd.get_u64(doc),
            GcdInnerReader::Multi(rd) => rd.get_u64(doc),
        };
        let r = self.g.wrapping_mul(w);
        proof {
            vstd::arithmetic::mul::lemma_mul_nonnegative(self.g as int, w as int);
        }
        r
    }

    fn min_value(&self) -> (r: u64) {
        self.min_before
    }

    fn max_value(&self) -> (r: u64) {
        self.min_before
    }
}

} // verus!
