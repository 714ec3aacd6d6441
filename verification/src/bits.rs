//! Bit-packed streams.
//!
//! A packed stream stores, for each ordinal `i`, the low `bw` bits of a
//! value at bit positions `i*bw .. (i+1)*bw`, least significant bit first,
//! bytes filled from bit 0 upward.  `pack_bits` produces such a stream and
//! `read_bits` extracts one window from it.

use vstd::prelude::*;
use vstd::arithmetic::power2::{pow2, lemma_pow2_unfold, lemma_pow2_pos, lemma2_to64, lemma2_to64_rest, lemma_pow2_strictly_increases};
use vstd::arithmetic::div_mod::{lemma_fundamental_div_mod, lemma_fundamental_div_mod_converse, lemma_multiply_divide_lt, lemma_mod_bound};
use vstd::arithmetic::mul::{lemma_mul_inequality, lemma_mul_is_commutative};
use vstd::bits::{lemma_u64_shl_is_mul};
use crate::buffer::{ob_bytes, ob_byte};
use ownedbytes::OwnedBytes;

verus! {

/// Bit `k` (0 = least significant) of byte `b`.
pub open spec fn byte_bit(b: u8, k: nat) -> nat
    recommends
        k < 8,
{
    ((b >> (k as u8)) & 1) as nat
}

/// Bit `p` of a byte stream.
pub open spec fn stream_bit(bytes: Seq<u8>, p: nat) -> nat
    recommends
        p < bytes.len() * 8,
{
    byte_bit(bytes[(p / 8) as int], p % 8)
}

/// Unsigned value of the `n` bits starting at bit `p`, least significant
/// bit first.
pub open spec fn bits_nat(bytes: Seq<u8>, p: nat, n: nat) -> nat
    decreases n,
{
    if n == 0 {
        0
    } else {
        stream_bit(bytes, p) + 2 * bits_nat(bytes, (p + 1) as nat, (n - 1) as nat)
    }
}

/// Bit `k` of value `v`.
pub open spec fn val_bit(v: u64, k: nat) -> nat
    recommends
        k < 64,
{
    ((v >> (k as u64)) & 1) as nat
}

/// Bit `q` of the stream that packs `vals` at `bw` bits per value;
/// zero in the padding after the last value.
pub open spec fn packed_bit(vals: Seq<u64>, bw: nat, q: nat) -> nat {
    if q < vals.len() * bw {
        val_bit(vals[(q / bw) as int], q % bw)
    } else {
        0
    }
}

/// Number of bytes that `n` values of `bw` bits occupy, rounded up.
pub open spec fn packed_byte_len(n: nat, bw: nat) -> nat {
    (n * bw + 7) / 8
}

pub proof fn lemma_byte_bit_le_1(b: u8, k: nat)
    ensures
        byte_bit(b, k) <= 1,
{
    let k8 = k as u8;
    assert((b >> k8) & 1 <= 1) by (bit_vector);
}

/// A packed window is bounded by the power of two of its width.
pub proof fn lemma_bits_nat_bound(bytes: Seq<u8>, p: nat, n: nat)
    ensures
        bits_nat(bytes, p, n) < pow2(n),
    decreases n,
{
    if n == 0 {
        lemma_pow2_pos(0);
        lemma2_to64();
    } else {
        lemma_byte_bit_le_1(bytes[(p / 8) as int], p % 8);
        lemma_bits_nat_bound(bytes, (p + 1) as nat, (n - 1) as nat);
        lemma_pow2_unfold(n);
    }
}

/// Splitting the top bit off a window: the window of width `n + 1` is the
/// window of width `n` plus the top bit scaled by `pow2(n)`.
pub proof fn lemma_bits_nat_split_high(bytes: Seq<u8>, p: nat, n: nat)
    ensures
        bits_nat(bytes, p, (n + 1) as nat) == bits_nat(bytes, p, n) + stream_bit(
            bytes,
            (p + n) as nat,
        ) * pow2(n),
    decreases n,
{
    assert(bits_nat(bytes, p, (n + 1) as nat) == stream_bit(bytes, p) + 2 * bits_nat(
        bytes,
        (p + 1) as nat,
        n,
    ));
    if n == 0 {
        lemma2_to64();
        let sb = stream_bit(bytes, p);
        lemma_byte_bit_le_1(bytes[(p / 8) as int], p % 8);
        assert(bits_nat(bytes, (p + 1) as nat, 0) == 0);
        assert(bits_nat(bytes, p, 0) == 0);
        assert(sb * pow2(0) == sb);
    } else {
        lemma_bits_nat_split_high(bytes, (p + 1) as nat, (n - 1) as nat);
        lemma_pow2_unfold(n);
        assert(bits_nat(bytes, p, n) == stream_bit(bytes, p) + 2 * bits_nat(
            bytes,
            (p + 1) as nat,
            (n - 1) as nat,
        ));
        let sb = stream_bit(bytes, (p + n) as nat);
        lemma_byte_bit_le_1(bytes[((p + n) / 8) as int], (p + n) % 8);
        if sb == 0 {
            assert(sb * pow2(n) == 0 && sb * pow2((n - 1) as nat) == 0);
        } else {
            assert(sb == 1);
            assert(sb * pow2(n) == pow2(n) && sb * pow2((n - 1) as nat) == pow2((n - 1) as nat));
        }
    }
}

/// If the `n` stream bits starting at `p` are the low bits of `v`, and `v`
/// fits in `n` bits, the window reads back exactly `v`.
pub proof fn lemma_bits_nat_eq_val(bytes: Seq<u8>, p: nat, v: u64, n: nat)
    requires
        n <= 64,
        (v as nat) < pow2(n),
        forall|k: nat| k < n ==> stream_bit(bytes, (p + k) as nat) == val_bit(v, k),
    ensures
        bits_nat(bytes, p, n) == v,
    decreases n,
{
    if n == 0 {
        lemma2_to64();
    } else {
        let v1 = v >> 1u64;
        assert((v >> 1u64) == v / 2 && (v & 1) < 2 && (v & 1) + 2 * (v >> 1u64) == v) by (bit_vector);
        lemma_pow2_unfold(n);
        assert((v1 as nat) < pow2((n - 1) as nat));
        assert forall|k: nat| k < (n - 1) as nat implies stream_bit(bytes, ((p + 1) + k) as nat)
            == val_bit(v1, k) by {
            let k64 = k as u64;
            let k1 = (k + 1) as u64;
            assert(((v >> 1u64) >> k64) & 1 == (v >> k1) & 1) by (bit_vector)
                requires
                    k64 < 63 && k1 == k64 + 1,
            ;
            assert(stream_bit(bytes, (p + (k + 1)) as nat) == val_bit(v, (k + 1) as nat));
        }
        lemma_bits_nat_eq_val(bytes, (p + 1) as nat, v1, (n - 1) as nat);
        assert(val_bit(v, 0) == ((v >> 0u64) & 1) as nat);
        assert((v >> 0u64) & 1 == v & 1) by (bit_vector);
        assert(stream_bit(bytes, p) == (v & 1) as nat);
    }
}

/// Reading a window through a byte-aligned offset: dropping `k` whole
/// bytes from the front shifts every bit position down by `8 * k`.
pub proof fn lemma_bits_nat_skip(s: Seq<u8>, k: nat, p: nat, n: nat)
    requires
        k <= s.len(),
        p + n <= 8 * (s.len() - k),
    ensures
        bits_nat(s, (8 * k + p) as nat, n) == bits_nat(s.skip(k as int), p, n),
    decreases n,
{
    if n > 0 {
        lemma_fundamental_div_mod(p as int, 8);
        lemma_fundamental_div_mod_converse((8 * k + p) as int, 8, (k + p / 8) as int, (p % 8) as int);
        assert(s.skip(k as int)[(p / 8) as int] == s[(k + p / 8) as int]);
        lemma_bits_nat_skip(s, k, (p + 1) as nat, (n - 1) as nat);
    }
}

/// In a packed stream, the window of ordinal `ord` holds `vals[ord]`.
pub proof fn lemma_packed_window(packed: Seq<u8>, vals: Seq<u64>, bw: nat, ord: nat)
    requires
        bw <= 64,
        ord < vals.len(),
        (vals[ord as int] as nat) < pow2(bw),
        forall|q: nat| q < vals.len() * bw ==> #[trigger] stream_bit(packed, q) == packed_bit(
            vals,
            bw,
            q,
        ),
    ensures
        bits_nat(packed, (ord * bw) as nat, bw) == vals[ord as int],
{
    assert forall|k: nat| k < bw implies stream_bit(packed, (ord * bw + k) as nat) == val_bit(
        vals[ord as int],
        k,
    ) by {
        let q = (ord * bw + k) as nat;
        lemma_mul_inequality(ord as int + 1, vals.len() as int, bw as int);
        assert((ord + 1) * bw == ord * bw + bw) by (nonlinear_arith);
        assert(q < vals.len() * bw);
        lemma_fundamental_div_mod_converse(q as int, bw as int, ord as int, k as int);
        assert(stream_bit(packed, q) == packed_bit(vals, bw, q));
    }
    lemma_bits_nat_eq_val(packed, (ord * bw) as nat, vals[ord as int], bw);
}

/// Appends the packed form of `vals` at `bw` bits per value.
pub fn pack_bits(out: &mut Vec<u8>, vals: &[u64], bw: u8)
    requires
        bw <= 64,
        vals@.len() < 0x1_0000_0000,
        forall|i: int| 0 <= i < vals@.len() ==> (vals@[i] as nat) < pow2(bw as nat),
        old(out)@.len() + packed_byte_len(vals@.len() as nat, bw as nat) <= usize::MAX,
    ensures
        final(out)@.len() == old(out)@.len() + packed_byte_len(vals@.len() as nat, bw as nat),
        final(out)@.subrange(0, old(out)@.len() as int) == old(out)@,
        forall|q: nat|
            q < 8 * packed_byte_len(vals@.len() as nat, bw as nat) ==> #[trigger] stream_bit(
                final(out)@.skip(old(out)@.len() as int),
                q,
            ) == packed_bit(vals@, bw as nat, q),
{
    let ghost old_len = out@.len() as int;
    let ghost prefix = out@;
    let bw64: u64 = bw as u64;
    let n64: u64 = vals.len() as u64;
    proof {
        assert(n64 * bw64 <= 0x1_0000_0000 * 64) by (nonlinear_arith)
            requires
                n64 < 0x1_0000_0000 && bw64 <= 64,
        ;
        assert(out@.subrange(0, old_len) =~= prefix);
    }
    let total_bits: u64 = n64 * bw64;
    let num_bytes: u64 = (total_bits + 7) / 8;
    let mut j: u64 = 0;
    while j < num_bytes
        invariant
            0 <= old_len,
            prefix.len() == old_len,
            bw64 == bw <= 64,
            n64 == vals@.len() < 0x1_0000_0000,
            total_bits == n64 * bw64,
            num_bytes == (total_bits + 7) / 8,
            old_len + num_bytes <= usize::MAX,
            j <= num_bytes,
            out@.len() == old_len + j,
            out@.subrange(0, old_len) == prefix,
            forall|i: int| 0 <= i < vals@.len() ==> (vals@[i] as nat) < pow2(bw as nat),
            forall|q: nat|
                q < 8 * j ==> #[trigger] stream_bit(out@.skip(old_len), q) == packed_bit(
                    vals@,
                    bw as nat,
                    q,
                ),
        decreases num_bytes - j,
    {
        let mut cur: u8 = 0;
        let mut t: u8 = 0;
        proof {
            assert forall|m: nat| m < 8 implies #[trigger] byte_bit(0u8, m) == 0 by {
                let m8 = m as u8;
                assert((0u8 >> m8) & 1 == 0) by (bit_vector);
            }
        }
        while t < 8
            invariant
                t <= 8,
                bw64 == bw <= 64,
                n64 == vals@.len() < 0x1_0000_0000,
                total_bits == n64 * bw64,
                num_bytes == (total_bits + 7) / 8,
                j < num_bytes,
                forall|i: int| 0 <= i < vals@.len() ==> (vals@[i] as nat) < pow2(bw as nat),
                forall|m: nat|
                    m < t ==> #[trigger] byte_bit(cur, m) == packed_bit(
                        vals@,
                        bw as nat,
                        (8 * j + m) as nat,
                    ),
                forall|m: nat| t <= m < 8 ==> #[trigger] byte_bit(cur, m) == 0,
            decreases 8 - t,
        {
            let q: u64 = j * 8 + (t as u64);
            if q < total_bits {
                proof {
                    assert(bw64 > 0);
                    lemma_mul_is_commutative(n64 as int, bw64 as int);
                    lemma_multiply_divide_lt(q as int, bw64 as int, n64 as int);
                    lemma_mod_bound(q as int, bw64 as int);
                }
                let i = (q / bw64) as usize;
                let k = q % bw64;
                let v: u64 = vals[i];
                let b: u8 = ((v >> k) & 1) as u8;
                proof {
                    assert((v >> k) & 1 <= 1) by (bit_vector);
                    assert(b as nat == val_bit(v, k as nat));
                    assert(packed_bit(vals@, bw as nat, q as nat) == b as nat);
                }
                let ghost cur0 = cur;
                cur = cur | (b << t);
                proof {
                    assert(byte_bit(cur0, t as nat) == 0);
                    assert((t as nat) as u8 == t);
                    assert(((cur0 >> t) & 1) as nat == byte_bit(cur0, t as nat));
                    assert forall|m: nat| m < 8 implies #[trigger] byte_bit(cur, m) == (if m == t {
                        b as nat
                    } else {
                        byte_bit(cur0, m)
                    }) by {
                        let m8 = m as u8;
                        assert(m == m8 as nat);
                        if m < t as nat {
                            assert(((cur0 | (b << t)) >> m8) & 1 == (cur0 >> m8) & 1)
                                by (bit_vector)
                                requires
                                    m8 < t && t < 8 && b <= 1,
                            ;
                        } else if m == t as nat {
                            assert(((cur0 | (b << t)) >> t) & 1 == b) by (bit_vector)
                                requires
                                    t < 8 && b <= 1 && (cur0 >> t) & 1 == 0,
                            ;
                        } else {
                            assert(((cur0 | (b << t)) >> m8) & 1 == (cur0 >> m8) & 1)
                                by (bit_vector)
                                requires
                                    t < m8 && m8 < 8 && b <= 1,
                            ;
                        }
                    }
                }
            } else {
                proof {
                    assert(byte_bit(cur, t as nat) == 0);
                    assert(total_bits as nat <= 8 * j + t as nat);
                    assert(packed_bit(vals@, bw as nat, (8 * j + t as nat) as nat) == 0);
                }
            }
            t += 1;
        }
        let ghost pre = out@;
        out.push(cur);
        proof {
            let pre_packed = pre.skip(old_len);
            let new_packed = out@.skip(old_len);
            assert(out@ == pre.push(cur));
            assert(out@.subrange(0, old_len) =~= prefix);
            assert(new_packed =~= pre_packed.push(cur));
            assert forall|q: nat| q < 8 * (j + 1) implies #[trigger] stream_bit(new_packed, q)
                == packed_bit(vals@, bw as nat, q) by {
                if q < 8 * j {
                    lemma_multiply_divide_lt(q as int, 8, j as int);
                    assert(new_packed[(q / 8) as int] == pre_packed[(q / 8) as int]);
                    assert(stream_bit(pre_packed, q) == packed_bit(vals@, bw as nat, q));
                } else {
                    lemma_fundamental_div_mod_converse(q as int, 8, j as int, (q - 8 * j) as int);
                    assert(new_packed[(q / 8) as int] == cur);
                    let m = (q % 8) as nat;
                    assert(byte_bit(cur, m) == packed_bit(vals@, bw as nat, (8 * j + m) as nat));
                    assert(8 * j + m == q);
                }
            }
        }
        j += 1;
    }
    proof {
        assert(out@.len() - old_len == num_bytes);
        assert(num_bytes as nat == packed_byte_len(vals@.len() as nat, bw as nat));
    }
}

/// Reads the `bw`-bit window that starts at absolute bit `bit_off` of the
/// buffer.
pub fn read_bits(data: &OwnedBytes, bit_off: u64, bw: u8) -> (r: u64)
    requires
        bw <= 64,
        bit_off + bw <= 8 * ob_bytes(*data).len(),
        8 * ob_bytes(*data).len() <= u64::MAX,
        ob_bytes(*data).len() <= usize::MAX,
    ensures
        r as nat == bits_nat(ob_bytes(*data), bit_off as nat, bw as nat),
{
    let ghost bytes = ob_bytes(*data);
    let mut acc: u64 = 0;
    let mut k: u8 = 0;
    proof {
        lemma2_to64();
    }
    while k < bw
        invariant
            k <= bw <= 64,
            bit_off + bw <= 8 * bytes.len(),
            8 * bytes.len() <= u64::MAX,
            bytes.len() <= usize::MAX,
            bytes == ob_bytes(*data),
            acc as nat == bits_nat(bytes, bit_off as nat, k as nat),
            (acc as nat) < pow2(k as nat),
        decreases bw - k,
    {
        let q: u64 = bit_off + (k as u64);
        proof {
            lemma_mul_is_commutative(bytes.len() as int, 8);
            lemma_multiply_divide_lt(q as int, 8, bytes.len() as int);
        }
        let byte: u8 = ob_byte(data, (q / 8) as usize);
        let sh: u8 = (q % 8) as u8;
        let b: u64 = ((byte >> sh) & 1) as u64;
        proof {
            assert((byte >> sh) & 1 <= 1) by (bit_vector);
            assert(((q % 8) as nat) as u8 == sh);
            assert(b as nat == byte_bit(byte, (q % 8) as nat));
            assert(b as nat == stream_bit(bytes, q as nat));
            lemma_bits_nat_split_high(bytes, bit_off as nat, k as nat);
            lemma2_to64_rest();
            if k < 63 {
                lemma_pow2_strictly_increases(k as nat, 63);
            }
            assert(pow2(k as nat) <= pow2(63));
            assert((b * pow2(k as nat)) <= pow2(k as nat)) by (nonlinear_arith)
                requires
                    b <= 1,
            ;
            lemma_u64_shl_is_mul(b, k as u64);
            lemma_pow2_unfold((k + 1) as nat);
            if k + 1 < 64 {
                lemma_pow2_strictly_increases((k + 1) as nat, 64);
            }
            assert(acc + (b << (k as u64)) < pow2((k + 1) as nat));
            assert(pow2((k + 1) as nat) <= pow2(64));
        }
        acc = acc + (b << (k as u64));
        k += 1;
    }
    acc
}

/// Value of the 8 bytes starting at `off`, little endian.
pub open spec fn le64_at(bytes: Seq<u8>, off: int) -> nat
    recommends
        0 <= off,
        off + 8 <= bytes.len(),
{
    (bytes[off] + bytes[off + 1] * 0x100 + bytes[off + 2] * 0x1_0000 + bytes[off + 3] * 0x100_0000
        + bytes[off + 4] * 0x1_0000_0000 + bytes[off + 5] * 0x100_0000_0000 + bytes[off + 6]
        * 0x1_0000_0000_0000 + bytes[off + 7] * 0x100_0000_0000_0000) as nat
}

/// Value of the 4 bytes starting at `off`, little endian.
pub open spec fn le32_at(bytes: Seq<u8>, off: int) -> nat
    recommends
        0 <= off,
        off + 4 <= bytes.len(),
{
    (bytes[off] + bytes[off + 1] * 0x100 + bytes[off + 2] * 0x1_0000 + bytes[off + 3] * 0x100_0000) as nat
}

/// Appends `v` as 8 little-endian bytes.
pub fn write_u64_le(out: &mut Vec<u8>, v: u64)
    requires
        old(out)@.len() + 8 <= usize::MAX,
    ensures
        final(out)@.len() == old(out)@.len() + 8,
        final(out)@.subrange(0, old(out)@.len() as int) == old(out)@,
        le64_at(final(out)@, old(out)@.len() as int) == v,
{
    let ghost old_len = out@.len() as int;
    let ghost prefix = out@;
    let b0: u8 = (v & 0xff) as u8;
    let b1: u8 = ((v >> 8u64) & 0xff) as u8;
    let b2: u8 = ((v >> 16u64) & 0xff) as u8;
    let b3: u8 = ((v >> 24u64) & 0xff) as u8;
    let b4: u8 = ((v >> 32u64) & 0xff) as u8;
    let b5: u8 = ((v >> 40u64) & 0xff) as u8;
    let b6: u8 = ((v >> 48u64) & 0xff) as u8;
    let b7: u8 = ((v >> 56u64) & 0xff) as u8;
    proof {
        assert((v & 0xff) + ((v >> 8u64) & 0xff) * 0x100 + ((v >> 16u64) & 0xff) * 0x1_0000 + ((v
            >> 24u64) & 0xff) * 0x100_0000 + ((v >> 32u64) & 0xff) * 0x1_0000_0000 + ((v >> 40u64)
            & 0xff) * 0x100_0000_0000 + ((v >> 48u64) & 0xff) * 0x1_0000_0000_0000 + ((v >> 56u64)
            & 0xff) * 0x100_0000_0000_0000 == v) by (bit_vector);
        assert((v & 0xff) < 0x100 && ((v >> 8u64) & 0xff) < 0x100 && ((v >> 16u64) & 0xff) < 0x100
            && ((v >> 24u64) & 0xff) < 0x100 && ((v >> 32u64) & 0xff) < 0x100 && ((v >> 40u64)
            & 0xff) < 0x100 && ((v >> 48u64) & 0xff) < 0x100 && ((v >> 56u64) & 0xff) < 0x100)
            by (bit_vector);
    }
    out.push(b0);
    out.push(b1);
    out.push(b2);
    out.push(b3);
    out.push(b4);
    out.push(b5);
    out.push(b6);
    out.push(b7);
    proof {
        assert(out@.subrange(0, old_len) =~= prefix);
        assert(out@[old_len] == b0 && out@[old_len + 1] == b1 && out@[old_len + 2] == b2 && out@[
            old_len + 3] == b3 && out@[old_len + 4] == b4 && out@[old_len + 5] == b5 && out@[old_len
            + 6] == b6 && out@[old_len + 7] == b7);
    }
}

/// Appends `v` as 4 little-endian bytes.
pub fn write_u32_le(out: &mut Vec<u8>, v: u32)
    requires
        old(out)@.len() + 4 <= usize::MAX,
    ensures
        final(out)@.len() == old(out)@.len() + 4,
        final(out)@.subrange(0, old(out)@.len() as int) == old(out)@,
        le32_at(final(out)@, old(out)@.len() as int) == v,
{
    let ghost old_len = out@.len() as int;
    let ghost prefix = out@;
    let b0: u8 = (v & 0xff) as u8;
    let b1: u8 = ((v >> 8u32) & 0xff) as u8;
    let b2: u8 = ((v >> 16u32) & 0xff) as u8;
    let b3: u8 = ((v >> 24u32) & 0xff) as u8;
    proof {
        assert((v & 0xff) + ((v >> 8u32) & 0xff) * 0x100 + ((v >> 16u32) & 0xff) * 0x1_0000 + ((v
            >> 24u32) & 0xff) * 0x100_0000 == v) by (bit_vector);
        assert((v & 0xff) < 0x100 && ((v >> 8u32) & 0xff) < 0x100 && ((v >> 16u32) & 0xff) < 0x100
            && ((v >> 24u32) & 0xff) < 0x100) by (bit_vector);
    }
    out.push(b0);
    out.push(b1);
    out.push(b2);
    out.push(b3);
    proof {
        assert(out@.subrange(0, old_len) =~= prefix);
        assert(out@[old_len] == b0 && out@[old_len + 1] == b1 && out@[old_len + 2] == b2 && out@[
            old_len + 3] == b3);
    }
}

/// Reads the little-endian `u64` at byte offset `off`.
pub fn read_u64_le(data: &OwnedBytes, off: usize) -> (r: u64)
    requires
        off + 8 <= ob_bytes(*data).len(),
        ob_bytes(*data).len() <= usize::MAX,
    ensures
        r as nat == le64_at(ob_bytes(*data), off as int),
{
    let b0 = ob_byte(data, off) as u64;
    let b1 = ob_byte(data, off + 1) as u64;
    let b2 = ob_byte(data, off + 2) as u64;
    let b3 = ob_byte(data, off + 3) as u64;
    let b4 = ob_byte(data, off + 4) as u64;
    let b5 = ob_byte(data, off + 5) as u64;
    let b6 = ob_byte(data, off + 6) as u64;
    let b7 = ob_byte(data, off + 7) as u64;
    proof {
        assert(b0 | (b1 << 8u64) | (b2 << 16u64) | (b3 << 24u64) | (b4 << 32u64) | (b5 << 40u64) | (
        b6 << 48u64) | (b7 << 56u64) == b0 + b1 * 0x100 + b2 * 0x1_0000 + b3 * 0x100_0000 + b4
            * 0x1_0000_0000 + b5 * 0x100_0000_0000 + b6 * 0x1_0000_0000_0000 + b7
            * 0x100_0000_0000_0000) by (bit_vector)
            requires
                b0 < 0x100 && b1 < 0x100 && b2 < 0x100 && b3 < 0x100 && b4 < 0x100 && b5 < 0x100
                    && b6 < 0x100 && b7 < 0x100,
        ;
    }
    b0 | (b1 << 8u64) | (b2 << 16u64) | (b3 << 24u64) | (b4 << 32u64) | (b5 << 40u64) | (b6
        << 48u64) | (b7 << 56u64)
}

/// Reads the little-endian `u32` at byte offset `off`.
pub fn read_u32_le(data: &OwnedBytes, off: usize) -> (r: u32)
    requires
        off + 4 <= ob_bytes(*data).len(),
        ob_bytes(*data).len() <= usize::MAX,
    ensures
        r as nat == le32_at(ob_bytes(*data), off as int),
{
    let b0 = ob_byte(data, off) as u32;
    let b1 = ob_byte(data, off + 1) as u32;
    let b2 = ob_byte(data, off + 2) as u32;
    let b3 = ob_byte(data, off + 3) as u32;
    proof {
        assert(b0 | (b1 << 8u32) | (b2 << 16u32) | (b3 << 24u32) == b0 + b1 * 0x100 + b2 * 0x1_0000
            + b3 * 0x100_0000) by (bit_vector)
            requires
                b0 < 0x100 && b1 < 0x100 && b2 < 0x100 && b3 < 0x100,
        ;
    }
    b0 | (b1 << 8u32) | (b2 << 16u32) | (b3 << 24u32)
}

/// A little-endian read below a preserved prefix is unchanged.
pub proof fn lemma_le64_prefix(s_old: Seq<u8>, s_new: Seq<u8>, off: int)
    requires
        s_old.len() <= s_new.len(),
        s_new.subrange(0, s_old.len() as int) == s_old,
        0 <= off,
        off + 8 <= s_old.len(),
    ensures
        le64_at(s_new, off) == le64_at(s_old, off),
{
    assert forall|k: int| 0 <= k < 8 implies #[trigger] s_new[off + k] == s_old[off + k] by {
        assert(s_new.subrange(0, s_old.len() as int)[off + k] == s_new[off + k]);
    }
}

/// A subrange below a preserved prefix is unchanged.
pub proof fn lemma_subrange_prefix(s_old: Seq<u8>, s_new: Seq<u8>, x: int, y: int)
    requires
        s_old.len() <= s_new.len(),
        s_new.subrange(0, s_old.len() as int) == s_old,
        0 <= x <= y <= s_old.len(),
    ensures
        s_new.subrange(x, y) == s_old.subrange(x, y),
{
    assert forall|k: int| 0 <= k < y - x implies s_new.subrange(x, y)[k] == s_old.subrange(x, y)[k]
    by {
        assert(s_new.subrange(0, s_old.len() as int)[x + k] == s_new[x + k]);
    }
    assert(s_new.subrange(x, y) =~= s_old.subrange(x, y));
}

/// Reading little-endian through a byte-aligned skip.
pub proof fn lemma_le64_skip(s: Seq<u8>, c: int, off: int)
    requires
        0 <= c,
        0 <= off,
        c + off + 8 <= s.len(),
    ensures
        le64_at(s.skip(c), off) == le64_at(s, c + off),
{
    assert forall|k: int| 0 <= k < 8 implies #[trigger] s.skip(c)[off + k] == s[c + off + k] by {}
}

/// Appends all bytes of `src`.
pub fn append_bytes(out: &mut Vec<u8>, src: &Vec<u8>)
    requires
        old(out)@.len() + src@.len() <= usize::MAX,
    ensures
        final(out)@ == old(out)@ + src@,
{
    let ghost old_len = out@.len() as int;
    let ghost prefix = out@;
    let mut i: usize = 0;
    while i < src.len()
        invariant
            0 <= old_len,
            prefix.len() == old_len,
            old_len + src@.len() <= usize::MAX,
            i <= src@.len(),
            out@ == prefix + src@.subrange(0, i as int),
        decreases src@.len() - i,
    {
        let ghost pre = out@;
        out.push(src[i]);
        proof {
            assert(out@ =~= prefix + src@.subrange(0, i + 1));
        }
        i += 1;
    }
    proof {
        assert(out@ =~= prefix + src@);
    }
}

/// Number of bits needed to write any value up to `amp`: zero when `amp`
/// is zero, else the position of its highest set bit plus one.
pub open spec fn spec_num_bits(amp: nat) -> nat
    decreases amp,
{
    if amp == 0 {
        0
    } else {
        1 + spec_num_bits(amp / 2)
    }
}

pub proof fn lemma_num_bits_bounds(amp: nat)
    ensures
        amp < 0x1_0000_0000_0000_0000 ==> spec_num_bits(amp) <= 64,
        amp < pow2(spec_num_bits(amp)),
    decreases amp,
{
    if amp == 0 {
        lemma_pow2_pos(0);
        lemma2_to64();
    } else {
        lemma_num_bits_bounds(amp / 2);
        lemma_pow2_unfold(spec_num_bits(amp));
    }
    if amp < 0x1_0000_0000_0000_0000 {
        lemma2_to64_rest();
        lemma_pow2_num_bits_le(amp, 64);
    }
}

/// If `amp` fits below `pow2(n)` then `spec_num_bits(amp) <= n`.
pub proof fn lemma_pow2_num_bits_le(amp: nat, n: nat)
    requires
        amp < pow2(n),
    ensures
        spec_num_bits(amp) <= n,
    decreases amp,
{
    if amp > 0 {
        lemma_pow2_pos(n);
        if n == 0 {
            lemma2_to64();
            assert(false);
        } else {
            lemma_pow2_unfold(n);
            lemma_pow2_num_bits_le(amp / 2, (n - 1) as nat);
        }
    }
}

/// Bit width of the range `0 ..= amp`.
pub fn num_bits(amp: u64) -> (n: u8)
    ensures
        n as nat == spec_num_bits(amp as nat),
        n <= 64,
        (amp as nat) < pow2(n as nat),
{
    let mut x: u64 = amp;
    let mut n: u8 = 0;
    proof {
        lemma_num_bits_bounds(amp as nat);
        lemma2_to64_rest();
    }
    while x > 0
        invariant
            spec_num_bits(amp as nat) == n + spec_num_bits(x as nat),
            n <= 64,
            spec_num_bits(amp as nat) <= 64,
        decreases x,
    {
        x = x / 2;
        n = n + 1;
    }
    proof {
        lemma_num_bits_bounds(amp as nat);
    }
    n
}

} // verus!
