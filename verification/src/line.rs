//! Straight-line models and residuals.
//!
//! A line through anchors `first` and `last` over positions `0 ..= n1`
//! predicts `first + (last - first) * i / n1` (integer division, sign
//! handled by case).  Residuals are the differences between a column's
//! values and that prediction; they are stored bit-packed after an offset
//! by the smallest residual.

use vstd::prelude::*;
use vstd::arithmetic::power2::pow2;
use vstd::arithmetic::div_mod::{lemma_div_is_ordered, lemma_div_multiples_vanish, lemma_div_pos_is_pos};
use vstd::arithmetic::power2::{lemma2_to64_rest, lemma_pow2_strictly_increases};
use vstd::arithmetic::mul::{lemma_mul_inequality, lemma_mul_is_commutative, lemma_mul_nonnegative};
use crate::bits::{packed_bit, packed_byte_len, pack_bits, stream_bit};

verus! {

/// Prediction of the line anchored at `first` (position 0) and `last`
/// (position `n1`), evaluated at position `i`.
pub open spec fn line_at(first: u64, last: u64, n1: nat, i: int) -> int
    recommends
        n1 >= 1,
        0 <= i <= n1,
{
    if last >= first {
        first + ((last - first) * i) / (n1 as int)
    } else {
        first - ((first - last) * i) / (n1 as int)
    }
}

/// The line stays between its anchors.
pub proof fn lemma_line_bounds(first: u64, last: u64, n1: nat, i: int)
    requires
        n1 >= 1,
        0 <= i <= n1,
    ensures
        line_at(first, last, n1, i) >= if first <= last {
            first as int
        } else {
            last as int
        },
        line_at(first, last, n1, i) <= if first <= last {
            last as int
        } else {
            first as int
        },
{
    let n = n1 as int;
    if last >= first {
        let d = last - first;
        lemma_mul_nonnegative(d, i);
        lemma_div_pos_is_pos(d * i, n);
        lemma_mul_inequality(i, n, d);
        lemma_mul_is_commutative(d, i);
        lemma_mul_is_commutative(d, n);
        lemma_div_is_ordered(d * i, d * n, n);
        lemma_div_multiples_vanish(d, n);
    } else {
        let d = first - last;
        lemma_mul_nonnegative(d, i);
        lemma_div_pos_is_pos(d * i, n);
        lemma_mul_inequality(i, n, d);
        lemma_mul_is_commutative(d, i);
        lemma_mul_is_commutative(d, n);
        lemma_div_is_ordered(d * i, d * n, n);
        lemma_div_multiples_vanish(d, n);
    }
}

/// Evaluates the line; the result always fits in `u64` because it lies
/// between the anchors.
pub fn line_exec(first: u64, last: u64, n1: u64, i: u64) -> (r: u64)
    requires
        n1 >= 1,
        i <= n1,
    ensures
        r as int == line_at(first, last, n1 as nat, i as int),
{
    proof {
        lemma_line_bounds(first, last, n1 as nat, i as int);
        assert((if last >= first {
            (last - first) as int
        } else {
            (first - last) as int
        }) * (i as int) <= 0xffff_ffff_ffff_ffff * 0x1_0000_0000_0000_0000) by (nonlinear_arith)
            requires
                i <= 0xffff_ffff_ffff_ffff,
        ;
    }
    if last >= first {
        let d = last - first;
        let q = ((d as u128) * (i as u128) / (n1 as u128)) as u64;
        first + q
    } else {
        let d = first - last;
        let q = ((d as u128) * (i as u128) / (n1 as u128)) as u64;
        first - q
    }
}

/// Residual of `vals[i]` against the line.
pub open spec fn res_at(vals: Seq<u64>, first: u64, last: u64, n1: nat, i: int) -> int {
    vals[i] - line_at(first, last, n1, i)
}

/// Smallest residual among positions `0 .. k`.
pub open spec fn res_min_upto(vals: Seq<u64>, first: u64, last: u64, n1: nat, k: int) -> int
    decreases k,
{
    if k <= 1 {
        res_at(vals, first, last, n1, 0)
    } else {
        let prev = res_min_upto(vals, first, last, n1, k - 1);
        let cur = res_at(vals, first, last, n1, k - 1);
        if cur < prev {
            cur
        } else {
            prev
        }
    }
}

/// Largest residual among positions `0 .. k`.
pub open spec fn res_max_upto(vals: Seq<u64>, first: u64, last: u64, n1: nat, k: int) -> int
    decreases k,
{
    if k <= 1 {
        res_at(vals, first, last, n1, 0)
    } else {
        let prev = res_max_upto(vals, first, last, n1, k - 1);
        let cur = res_at(vals, first, last, n1, k - 1);
        if cur > prev {
            cur
        } else {
            prev
        }
    }
}

/// Every residual below `k` lies between the running minimum and maximum.
pub proof fn lemma_res_bounds(vals: Seq<u64>, first: u64, last: u64, n1: nat, k: int, i: int)
    requires
        0 <= i < k || i == 0,
    ensures
        res_min_upto(vals, first, last, n1, k) <= res_at(vals, first, last, n1, i),
        res_at(vals, first, last, n1, i) <= res_max_upto(vals, first, last, n1, k),
    decreases k,
{
    if k > 1 && i < k - 1 {
        lemma_res_bounds(vals, first, last, n1, k - 1, i);
    }
}

/// The residuals of `vals`, shifted up by `-rmin` to be non-negative.
pub open spec fn res_deltas(
    vals: Seq<u64>,
    first: u64,
    last: u64,
    n1: nat,
    rmin: int,
) -> Seq<u64> {
    Seq::new(vals.len(), |i: int| (res_at(vals, first, last, n1, i) - rmin) as u64)
}

/// One pass over `vals` computing the smallest and largest residual.
pub fn residual_minmax(vals: &[u64], first: u64, last: u64, n1: u64) -> (r: (i64, i64))
    requires
        n1 >= 1,
        1 <= vals@.len() <= n1 + 1,
        forall|i: int|
            0 <= i < vals@.len() ==> -0x8000_0000_0000_0000 < #[trigger] res_at(
                vals@,
                first,
                last,
                n1 as nat,
                i,
            ) < 0x8000_0000_0000_0000,
    ensures
        r.0 as int == res_min_upto(vals@, first, last, n1 as nat, vals@.len() as int),
        r.1 as int == res_max_upto(vals@, first, last, n1 as nat, vals@.len() as int),
{
    let l0 = line_exec(first, last, n1, 0);
    proof {
        assert(res_at(vals@, first, last, n1 as nat, 0) == vals@[0] - l0);
    }
    let first_res: i64 = ((vals[0] as i128) - (l0 as i128)) as i64;
    let mut rmin: i64 = first_res;
    let mut rmax: i64 = first_res;
    let mut i: usize = 1;
    while i < vals.len()
        invariant
            n1 >= 1,
            1 <= i <= vals@.len() <= n1 + 1,
            forall|j: int|
                0 <= j < vals@.len() ==> -0x8000_0000_0000_0000 < #[trigger] res_at(
                    vals@,
                    first,
                    last,
                    n1 as nat,
                    j,
                ) < 0x8000_0000_0000_0000,
            rmin as int == res_min_upto(vals@, first, last, n1 as nat, i as int),
            rmax as int == res_max_upto(vals@, first, last, n1 as nat, i as int),
        decreases vals@.len() - i,
    {
        let l = line_exec(first, last, n1, i as u64);
        let res: i64 = ((vals[i] as i128) - (l as i128)) as i64;
        proof {
            assert(res as int == res_at(vals@, first, last, n1 as nat, i as int));
        }
        if res < rmin {
            rmin = res;
        }
        if res > rmax {
            rmax = res;
        }
        i += 1;
    }
    (rmin, rmax)
}

/// Second pass: appends the bit-packed residual deltas.
pub fn pack_residuals(out: &mut Vec<u8>, vals: &[u64], first: u64, last: u64, n1: u64, rmin: i64, bw: u8)
    requires
        n1 >= 1,
        bw <= 64,
        1 <= vals@.len() <= n1 + 1,
        vals@.len() < 0x1_0000_0000,
        forall|i: int|
            0 <= i < vals@.len() ==> rmin <= #[trigger] res_at(vals@, first, last, n1 as nat, i),
        forall|i: int|
            0 <= i < vals@.len() ==> (#[trigger] res_at(vals@, first, last, n1 as nat, i) - rmin)
                < pow2(bw as nat),
        old(out)@.len() + packed_byte_len(vals@.len() as nat, bw as nat) <= usize::MAX,
    ensures
        final(out)@.len() == old(out)@.len() + packed_byte_len(vals@.len() as nat, bw as nat),
        final(out)@.subrange(0, old(out)@.len() as int) == old(out)@,
        forall|q: nat|
            q < 8 * packed_byte_len(vals@.len() as nat, bw as nat) ==> #[trigger] stream_bit(
                final(out)@.skip(old(out)@.len() as int),
                q,
            ) == packed_bit(res_deltas(vals@, first, last, n1 as nat, rmin as int), bw as nat, q),
{
    let ghost deltas_spec = res_deltas(vals@, first, last, n1 as nat, rmin as int);
    let mut deltas: Vec<u64> = Vec::new();
    let mut i: usize = 0;
    while i < vals.len()
        invariant
            n1 >= 1,
            i <= vals@.len() <= n1 + 1,
            deltas@.len() == i,
            deltas_spec == res_deltas(vals@, first, last, n1 as nat, rmin as int),
            forall|j: int|
                0 <= j < vals@.len() ==> rmin <= #[trigger] res_at(
                    vals@,
                    first,
                    last,
                    n1 as nat,
                    j,
                ),
            forall|j: int|
                0 <= j < vals@.len() ==> (#[trigger] res_at(vals@, first, last, n1 as nat, j)
                    - rmin) < pow2(bw as nat),
            forall|j: int| 0 <= j < i ==> #[trigger] deltas@[j] == deltas_spec[j],
        decreases vals@.len() - i,
    {
        let l = line_exec(first, last, n1, i as u64);
        let res: i128 = (vals[i] as i128) - (l as i128);
        proof {
            assert(res == res_at(vals@, first, last, n1 as nat, i as int));
            lemma2_to64_rest();
            if bw < 64 {
                lemma_pow2_strictly_increases(bw as nat, 64);
            }
        }
        let delta: u64 = (res - (rmin as i128)) as u64;
        proof {
            assert(delta as int == deltas_spec[i as int]);
        }
        deltas.push(delta);
        i += 1;
    }
    proof {
        assert(deltas@ =~= deltas_spec);
        assert forall|j: int| 0 <= j < deltas@.len() implies (#[trigger] deltas@[j] as nat) < pow2(
            bw as nat,
        ) by {
            assert(deltas@[j] == deltas_spec[j]);
        }
    }
    pack_bits(out, deltas.as_slice(), bw);
}

} // verus!
