//! FLAC encoder: blocks of 4096 samples, fixed predictors of order 0-4, partitioned Rice
//! coding and stereo decorrelation (L/R, L/S, S/R, M/S). Lossless.

use vstd::prelude::*;
use vstd::arithmetic::power2::*;
use crate::media::bytes::{be24, be32, le32, zero_bytes, push_be24, push_be32, push_le32, extend, push_zeros};
use crate::media::pcm::{PcmFormat, PcmSink, SinkEnd};
use crate::media::tags::{Tags, starts_png, is_png};
use crate::media::bits::{Bits, nat_bits, bytes_bits, bits_value, zeros, lemma_bytes_bits_len, lemma_bytes_bits_push, lemma_bits_value_nat_bits, lemma_nat_bits_zero, signed_bits, zigzag, rice_bits, small, zigzag_u64, lemma_nat_bits_len, rice_decode, lemma_rice_roundtrip, lemma_bytes_bits_concat};

verus! {

// ---------- checksums ----------

/// Eight shift/xor steps of CRC-8 (polynomial 0x07) over `c`.
pub open spec fn crc8_shift(c: u8, i: nat) -> u8
    decreases i,
{
    if i == 0 {
        c
    } else {
        let p = crc8_shift(c, (i - 1) as nat);
        if p & 0x80 != 0 { ((p << 1u8) ^ 0x07u8) as u8 } else { (p << 1u8) as u8 }
    }
}

/// CRC-8 (polynomial 0x07, initial 0) of a byte string, as FLAC frame headers use.
pub open spec fn crc8_spec(s: Seq<u8>) -> u8
    decreases s.len(),
{
    if s.len() == 0 { 0 } else { crc8_shift(crc8_spec(s.drop_last()) ^ s.last(), 8) }
}

/// Eight shift/xor steps of CRC-16 (polynomial 0x8005) over `c`.
pub open spec fn crc16_shift(c: u16, i: nat) -> u16
    decreases i,
{
    if i == 0 {
        c
    } else {
        let p = crc16_shift(c, (i - 1) as nat);
        if p & 0x8000 != 0 { ((p << 1u16) ^ 0x8005u16) as u16 } else { (p << 1u16) as u16 }
    }
}

/// CRC-16 (polynomial 0x8005, initial 0) of a byte string, as FLAC frames use.
pub open spec fn crc16_spec(s: Seq<u8>) -> u16
    decreases s.len(),
{
    if s.len() == 0 {
        0
    } else {
        crc16_shift(crc16_spec(s.drop_last()) ^ ((s.last() as u16) << 8u16), 8)
    }
}

proof fn lemma_crc8_shift_zero(i: nat)
    ensures
        crc8_shift(0, i) == 0,
    decreases i,
{
    if i > 0 {
        lemma_crc8_shift_zero((i - 1) as nat);
        assert(((0u8 << 1u8) as u8) == 0u8 && (0u8 & 0x80u8) == 0u8) by (bit_vector);
    }
}

proof fn lemma_crc16_shift_zero(i: nat)
    ensures
        crc16_shift(0, i) == 0,
    decreases i,
{
    if i > 0 {
        lemma_crc16_shift_zero((i - 1) as nat);
        assert(((0u16 << 1u16) as u16) == 0u16 && (0u16 & 0x8000u16) == 0u16) by (bit_vector);
    }
}

/// A byte shifted through the CRC-16 register for up to eight steps never reaches its top
/// bit, so it only moves left.
proof fn lemma_crc16_shift_byte(x: u16, i: nat)
    requires
        x < 0x100,
        i <= 8,
    ensures
        crc16_shift(x, i) == ((x as u32) << (i as u32)) as u16,
    decreases i,
{
    if i > 0 {
        lemma_crc16_shift_byte(x, (i - 1) as nat);
        let k = (i - 1) as u32;
        let p = crc16_shift(x, (i - 1) as nat);
        assert(p & 0x8000u16 == 0u16 && ((p << 1u16) as u16) == ((x as u32) << (k + 1)) as u16) by (bit_vector)
            requires
                x < 0x100,
                k < 8,
                p == ((x as u32) << k) as u16;
        assert(i as u32 == k + 1);
    } else {
        assert(x == ((x as u32) << 0u32) as u16) by (bit_vector)
            requires
                x < 0x100;
    }
}

/// Appending its CRC-8 to a byte string gives a string whose CRC-8 is 0: this is how a
/// reader checks a FLAC frame header.
pub proof fn lemma_crc8_residue(s: Seq<u8>)
    ensures
        crc8_spec(s.push(crc8_spec(s))) == 0,
{
    let t = s.push(crc8_spec(s));
    assert(t.drop_last() =~= s);
    let c = crc8_spec(s);
    assert(c ^ c == 0u8) by (bit_vector);
    lemma_crc8_shift_zero(8);
}

/// Appending its CRC-16 big-endian to a byte string gives a string whose CRC-16 is 0: this
/// is how a reader checks a whole FLAC frame.
pub proof fn lemma_crc16_residue(s: Seq<u8>)
    ensures
        ({
            let c = crc16_spec(s);
            crc16_spec(s.push((c >> 8u16) as u8).push((c & 0xFFu16) as u8)) == 0
        }),
{
    let c = crc16_spec(s);
    let hi = (c >> 8u16) as u8;
    let lo = (c & 0xFFu16) as u8;
    let t1 = s.push(hi);
    let t2 = t1.push(lo);
    assert(t1.drop_last() =~= s);
    assert(t2.drop_last() =~= t1);
    let x = c ^ ((hi as u16) << 8u16);
    assert(x == lo as u16 && x < 0x100) by (bit_vector)
        requires
            hi == (c >> 8u16) as u8,
            lo == (c & 0xFFu16) as u8,
            x == c ^ ((hi as u16) << 8u16);
    lemma_crc16_shift_byte(x, 8);
    let c1 = crc16_shift(x, 8);
    assert(crc16_spec(t1) == c1);
    assert(c1 ^ ((lo as u16) << 8u16) == 0u16) by (bit_vector)
        requires
            x == lo as u16,
            c1 == ((x as u32) << 8u32) as u16;
    lemma_crc16_shift_zero(8);
}

pub fn crc8(data: &[u8]) -> (c: u8)
    ensures
        c == crc8_spec(data@),
{
    let mut c: u8 = 0;
    let mut i: usize = 0;
    while i < data.len()
        invariant
            i <= data.len(),
            c == crc8_spec(data@.subrange(0, i as int)),
        decreases data.len() - i,
    {
        let ghost prefix = data@.subrange(0, i as int);
        c = c ^ data[i];
        let ghost c0 = c;
        let mut j: u32 = 0;
        while j < 8
            invariant
                j <= 8,
                c == crc8_shift(c0, j as nat),
            decreases 8 - j,
        {
            c = if c & 0x80 != 0 { (c << 1u8) ^ 0x07 } else { c << 1u8 };
            j = j + 1;
        }
        assert(data@.subrange(0, i + 1).drop_last() =~= prefix);
        i = i + 1;
    }
    assert(data@.subrange(0, i as int) =~= data@);
    c
}

pub fn crc16(data: &[u8]) -> (c: u16)
    ensures
        c == crc16_spec(data@),
{
    let mut c: u16 = 0;
    let mut i: usize = 0;
    while i < data.len()
        invariant
            i <= data.len(),
            c == crc16_spec(data@.subrange(0, i as int)),
        decreases data.len() - i,
    {
        let ghost prefix = data@.subrange(0, i as int);
        c = c ^ ((data[i] as u16) << 8u16);
        let ghost c0 = c;
        let mut j: u32 = 0;
        while j < 8
            invariant
                j <= 8,
                c == crc16_shift(c0, j as nat),
            decreases 8 - j,
        {
            c = if c & 0x8000 != 0 { (c << 1u16) ^ 0x8005 } else { c << 1u16 };
            j = j + 1;
        }
        assert(data@.subrange(0, i + 1).drop_last() =~= prefix);
        i = i + 1;
    }
    assert(data@.subrange(0, i as int) =~= data@);
    c
}

// ---------- fixed prediction ----------

/// Residual at sample `i` of the fixed predictor of order `order` (orders above 4 use order 4).
pub open spec fn fixed_residual(x: Seq<i32>, order: nat, i: int) -> int {
    let s = |j: int| x[j] as int;
    if order == 0 {
        s(i)
    } else if order == 1 {
        s(i) - s(i - 1)
    } else if order == 2 {
        s(i) - 2 * s(i - 1) + s(i - 2)
    } else if order == 3 {
        s(i) - 3 * s(i - 1) + 3 * s(i - 2) - s(i - 3)
    } else {
        s(i) - 4 * s(i - 1) + 6 * s(i - 2) - 4 * s(i - 3) + s(i - 4)
    }
}

/// What the predictor of order `order` expects at position `i`, from the samples before it.
pub open spec fn fixed_prediction(y: Seq<int>, order: nat, i: int) -> int {
    if order == 0 {
        0
    } else if order == 1 {
        y[i - 1]
    } else if order == 2 {
        2 * y[i - 1] - y[i - 2]
    } else if order == 3 {
        3 * y[i - 1] - 3 * y[i - 2] + y[i - 3]
    } else {
        4 * y[i - 1] - 6 * y[i - 2] + 4 * y[i - 3] - y[i - 4]
    }
}

/// Decoder side: rebuilds the signal from the warm-up samples and the residual.
pub open spec fn restore(warm: Seq<int>, res: Seq<int>, order: nat) -> Seq<int>
    decreases res.len(),
{
    if res.len() == 0 {
        warm
    } else {
        let y = restore(warm, res.drop_last(), order);
        y.push(res.last() + fixed_prediction(y, order, y.len() as int))
    }
}

pub open spec fn samples_int(x: Seq<i32>) -> Seq<int> {
    Seq::new(x.len(), |i: int| x[i] as int)
}

pub open spec fn residual_seq(x: Seq<i32>, order: nat) -> Seq<int> {
    Seq::new((x.len() - order) as nat, |j: int| fixed_residual(x, order, j + order))
}

/// Fixed prediction is lossless: the warm-up samples and the residual give back the signal.
pub proof fn lemma_fixed_prediction_lossless(x: Seq<i32>, order: nat)
    requires
        order <= 4,
        order <= x.len(),
    ensures
        restore(samples_int(x).subrange(0, order as int), residual_seq(x, order), order)
            == samples_int(x),
{
    lemma_restore_prefix(x, order, (x.len() - order) as nat);
    assert(residual_seq(x, order).subrange(0, (x.len() - order) as int) =~= residual_seq(x, order));
    assert(samples_int(x).subrange(0, x.len() as int) =~= samples_int(x));
}

proof fn lemma_restore_prefix(x: Seq<i32>, order: nat, m: nat)
    requires
        order <= 4,
        order + m <= x.len(),
    ensures
        restore(samples_int(x).subrange(0, order as int), residual_seq(x, order).subrange(0, m as int), order)
            == samples_int(x).subrange(0, (order + m) as int),
    decreases m,
{
    let warm = samples_int(x).subrange(0, order as int);
    let res = residual_seq(x, order).subrange(0, m as int);
    if m == 0 {
        assert(res.len() == 0);
    } else {
        lemma_restore_prefix(x, order, (m - 1) as nat);
        assert(res.drop_last() =~= residual_seq(x, order).subrange(0, m - 1));
        let y = samples_int(x).subrange(0, (order + m - 1) as int);
        let i = (order + m - 1) as int;
        assert(res.last() + fixed_prediction(y, order, y.len() as int) == x[i] as int);
        assert(y.push(x[i] as int) =~= samples_int(x).subrange(0, (order + m) as int));
    }
}

/// Residual of the fixed predictor of order `order`; the first `order` samples are warm-up
/// (none when there are fewer samples than that).
pub fn residual(x: &[i32], order: usize) -> (r: Vec<i64>)
    ensures
        r.len() == if order <= x.len() { x.len() - order } else { 0 },
        forall|j: int| 0 <= j < r.len() ==> r[j] as int == #[trigger] fixed_residual(x@, order as nat, j + order),
{
    let mut out: Vec<i64> = Vec::new();
    if order > x.len() {
        return out;
    }
    let mut i = order;
    while i < x.len()
        invariant
            order <= i <= x.len(),
            out.len() == i - order,
            forall|j: int| 0 <= j < out.len() ==> out[j] as int == #[trigger] fixed_residual(x@, order as nat, j + order),
        decreases x.len() - i,
    {
        let s0 = x[i] as i64;
        let v: i64 = if order == 0 {
            s0
        } else if order == 1 {
            s0 - x[i - 1] as i64
        } else if order == 2 {
            s0 - 2 * (x[i - 1] as i64) + x[i - 2] as i64
        } else if order == 3 {
            s0 - 3 * (x[i - 1] as i64) + 3 * (x[i - 2] as i64) - x[i - 3] as i64
        } else {
            s0 - 4 * (x[i - 1] as i64) + 6 * (x[i - 2] as i64) - 4 * (x[i - 3] as i64) + x[i - 4] as i64
        };
        out.push(v);
        i = i + 1;
    }
    out
}


// ---------- Rice parameter ----------

/// Sum of the zigzag codes of a residual.
pub open spec fn zz_sum(s: Seq<i64>) -> nat
    decreases s.len(),
{
    if s.len() == 0 { 0 } else { zz_sum(s.drop_last()) + zigzag(s.last() as int) }
}

/// Bits that Rice coding with parameter `k` takes for a residual.
pub open spec fn rice_cost(s: Seq<i64>, k: nat) -> nat
    decreases s.len(),
{
    if s.len() == 0 {
        0
    } else {
        rice_cost(s.drop_last(), k) + zigzag(s.last() as int) / pow2(k) + 1 + k
    }
}

/// Floor of the base-2 logarithm (0 for 0 and 1).
pub open spec fn log2_floor(n: nat) -> nat
    decreases n,
{
    if n <= 1 { 0 } else { 1 + log2_floor(n / 2) }
}

/// The Rice parameter suggested by the mean zigzag code (log2 of the mean, at most 14).
pub open spec fn rice_k0(s: Seq<i64>) -> nat {
    let mean = zz_sum(s) / if s.len() > 1 { s.len() } else { 1 };
    let l = log2_floor(if mean > 1 { mean } else { 1 });
    if l < 14 { l } else { 14 }
}

pub open spec fn rice_lo(s: Seq<i64>) -> nat {
    if rice_k0(s) >= 1 { (rice_k0(s) - 1) as nat } else { 0 }
}

pub open spec fn rice_hi(s: Seq<i64>) -> nat {
    if rice_k0(s) + 1 < 14 { rice_k0(s) + 1 } else { 14 }
}

/// Residuals the encoder accepts: small values, fewer than 2^22 of them.
pub open spec fn rice_input(s: Seq<i64>) -> bool {
    s.len() < 0x40_0000 && forall|i: int| 0 <= i < s.len() ==> small(#[trigger] s[i] as int)
}

/// `k` is the cheapest parameter among the three tried, the first one on a tie; `bits` its cost.
pub open spec fn is_rice_choice(s: Seq<i64>, k: nat, bits: nat) -> bool {
    &&& rice_lo(s) <= k <= rice_hi(s)
    &&& bits == rice_cost(s, k)
    &&& forall|j: nat| rice_lo(s) <= j <= rice_hi(s) ==> rice_cost(s, k) <= #[trigger] rice_cost(s, j)
    &&& forall|j: nat| rice_lo(s) <= j < k ==> #[trigger] rice_cost(s, j) > rice_cost(s, k)
}

pub open spec fn rice_choice(s: Seq<i64>) -> (nat, nat) {
    choose|p: (nat, nat)| is_rice_choice(s, p.0, p.1)
}

proof fn lemma_rice_choice_unique(s: Seq<i64>, k: nat, bits: nat)
    requires
        is_rice_choice(s, k, bits),
    ensures
        rice_choice(s) == (k, bits),
{
    let w = (k, bits);
    assert(is_rice_choice(s, w.0, w.1));
    let p = rice_choice(s);
    assert(is_rice_choice(s, p.0, p.1));
    if p.0 < k {
        assert(rice_cost(s, p.0) > rice_cost(s, k));
    }
    if k < p.0 {
        assert(rice_cost(s, k) > rice_cost(s, p.0));
    }
}

proof fn lemma_small_zigzag(v: int)
    requires
        small(v),
    ensures
        zigzag(v) < 0x200_0000_0000,
{
}

proof fn lemma_rice_cost_bound(s: Seq<i64>, k: nat)
    requires
        k <= 14,
        forall|i: int| 0 <= i < s.len() ==> small(#[trigger] s[i] as int),
    ensures
        rice_cost(s, k) <= s.len() * 0x400_0000_0000,
        zz_sum(s) <= s.len() * 0x400_0000_0000,
    decreases s.len(),
{
    if s.len() > 0 {
        assert forall|i: int| 0 <= i < s.drop_last().len() implies small(#[trigger] s.drop_last()[i] as int) by {
            assert(s.drop_last()[i] == s[i]);
        }
        lemma_rice_cost_bound(s.drop_last(), k);
        assert(small(s[s.len() - 1] as int));
        lemma_small_zigzag(s.last() as int);
        lemma_pow2_pos(k);
        assert(zigzag(s.last() as int) / pow2(k) <= zigzag(s.last() as int)) by {
            vstd::arithmetic::div_mod::lemma_div_is_ordered_by_denominator(zigzag(s.last() as int) as int, 1, pow2(k) as int);
        }
        assert((s.len() - 1) * 0x400_0000_0000 + 0x400_0000_0000 == s.len() * 0x400_0000_0000) by (nonlinear_arith);
    }
}

proof fn lemma_prefix_drop_last<T>(s: Seq<T>, i: int)
    requires
        0 <= i < s.len(),
    ensures
        s.subrange(0, i + 1).drop_last() == s.subrange(0, i),
        s.subrange(0, i + 1).last() == s[i],
{
    assert(s.subrange(0, i + 1).drop_last() =~= s.subrange(0, i));
}

/// Bits of Rice coding `res` with parameter `k`.
fn rice_cost_exec(res: &[i64], k: u32) -> (bits: u64)
    requires
        k <= 14,
        rice_input(res@),
    ensures
        bits == rice_cost(res@, k as nat),
{
    let mut total: u64 = 0;
    let mut i: usize = 0;
    proof {
        lemma_pow2_pos(k as nat);
    }
    while i < res.len()
        invariant
            i <= res.len(),
            k <= 14,
            rice_input(res@),
            total == rice_cost(res@.subrange(0, i as int), k as nat),
        decreases res.len() - i,
    {
        let z = zigzag_u64(res[i]);
        proof {
            lemma_prefix_drop_last(res@, i as int);
            vstd::bits::lemma_u64_shr_is_div(z, k as u64);
            assert forall|j: int| 0 <= j < res@.subrange(0, i + 1).len() implies
                small(#[trigger] res@.subrange(0, i + 1)[j] as int) by {
                assert(res@.subrange(0, i + 1)[j] == res@[j]);
            }
            lemma_rice_cost_bound(res@.subrange(0, i + 1), k as nat);
            assert((i + 1) * 0x400_0000_0000 < 0x1_0000_0000_0000_0000) by (nonlinear_arith)
                requires i + 1 < 0x40_0000;
        }
        total = total + (z >> k) + 1 + k as u64;
        i = i + 1;
    }
    assert(res@.subrange(0, i as int) =~= res@);
    total
}

/// Floor of log2 of `n` (0 for 0 and 1).
fn log2_floor_exec(n: u64) -> (r: u32)
    ensures
        r == log2_floor(n as nat),
        r < 64,
{
    let mut m = n;
    let mut r: u32 = 0;
    proof { lemma_log2_floor_bound(n as nat); }
    while m > 1
        invariant
            log2_floor(n as nat) == r + log2_floor(m as nat),
            r + log2_floor(m as nat) < 64,
            m <= n,
        decreases m,
    {
        proof { lemma_log2_floor_bound(m as nat); }
        m = m / 2;
        r = r + 1;
    }
    r
}

proof fn lemma_log2_floor_pow2(n: nat)
    requires
        n > 0,
    ensures
        pow2(log2_floor(n)) <= n,
    decreases n,
{
    if n > 1 {
        lemma_log2_floor_pow2(n / 2);
        lemma_pow2_unfold(log2_floor(n));
    } else {
        lemma2_to64();
    }
}

proof fn lemma_log2_floor_bound(n: nat)
    requires
        n <= u64::MAX,
    ensures
        log2_floor(n) < 64,
{
    if n > 0 {
        lemma_log2_floor_pow2(n);
        if log2_floor(n) >= 64 {
            lemma2_to64_rest();
            if log2_floor(n) > 64 {
                lemma_pow2_strictly_increases(64, log2_floor(n));
            }
        }
    }
}

/// Best Rice parameter for `res` and the bits it takes. The optimum lies next to log2 of the
/// mean zigzag code, so only three values are tried.
pub fn best_rice(res: &[i64]) -> (r: (u32, u64))
    requires
        rice_input(res@),
    ensures
        is_rice_choice(res@, r.0 as nat, r.1 as nat),
        (r.0 as nat, r.1 as nat) == rice_choice(res@),
{
    let mut sum: u64 = 0;
    let mut i: usize = 0;
    while i < res.len()
        invariant
            i <= res.len(),
            rice_input(res@),
            sum == zz_sum(res@.subrange(0, i as int)),
        decreases res.len() - i,
    {
        let z = zigzag_u64(res[i]);
        proof {
            lemma_prefix_drop_last(res@, i as int);
            assert forall|j: int| 0 <= j < res@.subrange(0, i + 1).len() implies
                small(#[trigger] res@.subrange(0, i + 1)[j] as int) by {
                assert(res@.subrange(0, i + 1)[j] == res@[j]);
            }
            lemma_rice_cost_bound(res@.subrange(0, i + 1), 0);
            assert((i + 1) * 0x400_0000_0000 < 0x1_0000_0000_0000_0000) by (nonlinear_arith)
                requires i + 1 < 0x40_0000;
        }
        sum = sum + z;
        i = i + 1;
    }
    assert(res@.subrange(0, i as int) =~= res@);
    let denom: u64 = if res.len() > 1 { res.len() as u64 } else { 1 };
    let mean = sum / denom;
    let l = log2_floor_exec(if mean > 1 { mean } else { 1 });
    let k0 = if l < 14 { l } else { 14 };
    let lo = if k0 >= 1 { k0 - 1 } else { 0 };
    let hi = if k0 + 1 < 14 { k0 + 1 } else { 14 };
    assert(lo == rice_lo(res@) && hi == rice_hi(res@));
    let ghost s = res@;
    let mut best_k: u32 = lo;
    let mut best_bits: u64 = rice_cost_exec(res, lo);
    proof {
        lemma_rice_cost_bound(s, lo as nat);
        assert(s.len() * 0x400_0000_0000 < 0x1_0000_0000_0000_0000) by (nonlinear_arith)
            requires s.len() < 0x40_0000;
    }
    let mut k = lo + 1;
    while k <= hi
        invariant
            lo == rice_lo(s),
            hi == rice_hi(s),
            hi <= 14,
            lo + 1 <= k <= hi + 1,
            s == res@,
            rice_input(s),
            lo <= best_k < k,
            best_bits == rice_cost(s, best_k as nat),
            forall|j: nat| lo <= j < k ==> rice_cost(s, best_k as nat) <= #[trigger] rice_cost(s, j),
            forall|j: nat| lo <= j < best_k ==> #[trigger] rice_cost(s, j) > rice_cost(s, best_k as nat),
        decreases hi + 1 - k,
    {
        let bits = rice_cost_exec(res, k);
        if bits < best_bits {
            best_k = k;
            best_bits = bits;
        }
        k = k + 1;
    }
    proof {
        lemma_rice_choice_unique(s, best_k as nat, best_bits as nat);
    }
    (best_k, best_bits)
}


// ---------- partitioned Rice coding ----------

pub open spec fn part_per(block: nat, po: nat) -> nat {
    block / pow2(po)
}

/// First residual index of partition `p` (the first partition is short by the warm-up).
pub open spec fn part_start(block: nat, order: nat, po: nat, p: nat) -> int {
    if p == 0 { 0 } else { p * part_per(block, po) - order }
}

pub open spec fn part_end(block: nat, order: nat, po: nat, p: nat) -> int {
    (p + 1) * part_per(block, po) - order
}

pub open spec fn part_slice(res: Seq<i64>, block: nat, order: nat, po: nat, p: nat) -> Seq<i64> {
    res.subrange(part_start(block, order, po, p), part_end(block, order, po, p))
}

/// `2^po` partitions divide the block evenly and each is longer than the warm-up.
pub open spec fn po_fits(block: nat, order: nat, po: nat) -> bool {
    block % pow2(po) == 0 && block / pow2(po) > order
}

/// Partition orders the encoder considers: it tries 0, 1, ... up to 6 and stops at the first
/// that does not fit.
pub open spec fn po_valid(block: nat, order: nat, po: nat) -> bool {
    po <= 6 && forall|j: nat| j <= po ==> #[trigger] po_fits(block, order, j)
}

/// Bits of the first `m` partitions (parameter field included).
pub open spec fn part_total(res: Seq<i64>, block: nat, order: nat, po: nat, m: nat) -> nat
    decreases m,
{
    if m == 0 {
        0
    } else {
        part_total(res, block, order, po, (m - 1) as nat)
            + rice_choice(part_slice(res, block, order, po, (m - 1) as nat)).1 + 4
    }
}

pub open spec fn plan_total(res: Seq<i64>, block: nat, order: nat, po: nat) -> nat {
    part_total(res, block, order, po, pow2(po))
}

/// Rice parameter of each partition.
pub open spec fn part_ks(res: Seq<i64>, block: nat, order: nat, po: nat) -> Seq<u32> {
    Seq::new(pow2(po), |p: int| rice_choice(part_slice(res, block, order, po, p as nat)).0 as u32)
}

/// `po` is the partition order that takes the fewest bits (the lowest on a tie) and `ks`
/// its parameters.
pub open spec fn is_partition_plan(res: Seq<i64>, block: nat, order: nat, po: nat, ks: Seq<u32>) -> bool {
    if !po_fits(block, order, 0) {
        po == 0 && ks == seq![0u32]
    } else {
        &&& po_valid(block, order, po)
        &&& ks == part_ks(res, block, order, po)
        &&& forall|j: nat| po_valid(block, order, j)
            ==> plan_total(res, block, order, po) <= #[trigger] plan_total(res, block, order, j)
        &&& forall|j: nat| j < po ==> #[trigger] plan_total(res, block, order, j) > plan_total(res, block, order, po)
    }
}

proof fn lemma_part_bounds(block: nat, order: nat, po: nat, p: nat)
    requires
        po_fits(block, order, po),
        p < pow2(po),
    ensures
        0 <= part_start(block, order, po, p) <= part_end(block, order, po, p) <= block - order,
        p > 0 ==> part_start(block, order, po, p) == part_end(block, order, po, (p - 1) as nat),
{
    let per = part_per(block, po);
    let n = pow2(po);
    lemma_pow2_pos(po);
    vstd::arithmetic::div_mod::lemma_fundamental_div_mod(block as int, n as int);
    assert(n * per == block);
    assert((p + 1) * per <= n * per) by (nonlinear_arith)
        requires p + 1 <= n;
    assert(p * per + per == (p + 1) * per) by (nonlinear_arith);
    if p > 0 {
        assert(p * per >= per) by (nonlinear_arith) requires p >= 1;
    }
}

proof fn lemma_part_total_bound(res: Seq<i64>, block: nat, order: nat, po: nat, m: nat)
    requires
        po_fits(block, order, po),
        m <= pow2(po),
        res.len() + order == block,
        rice_input(res),
    ensures
        part_total(res, block, order, po, m)
            <= (if m == 0 { 0 } else { part_end(block, order, po, (m - 1) as nat) }) * 0x400_0000_0000 + 4 * m,
    decreases m,
{
    if m > 0 {
        let p = (m - 1) as nat;
        lemma_part_bounds(block, order, po, p);
        lemma_part_total_bound(res, block, order, po, p);
        let sl = part_slice(res, block, order, po, p);
        lemma_slice_rice_input(res, part_start(block, order, po, p), part_end(block, order, po, p));
        let c = rice_choice(sl);
        lemma_rice_choice_exists(sl);
        lemma_rice_cost_bound(sl, c.0);
        let e = part_end(block, order, po, p);
        let st = part_start(block, order, po, p);
        assert(sl.len() == e - st);
        if p > 0 {
            lemma_part_bounds(block, order, po, (p - 1) as nat);
        }
        assert(st * 0x400_0000_0000 + (e - st) * 0x400_0000_0000 == e * 0x400_0000_0000) by (nonlinear_arith);
    }
}

proof fn lemma_slice_rice_input(res: Seq<i64>, a: int, b: int)
    requires
        rice_input(res),
        0 <= a <= b <= res.len(),
    ensures
        rice_input(res.subrange(a, b)),
{
    assert forall|i: int| 0 <= i < res.subrange(a, b).len() implies small(#[trigger] res.subrange(a, b)[i] as int) by {
        assert(res.subrange(a, b)[i] == res[a + i]);
    }
}

proof fn lemma_rice_choice_exists(s: Seq<i64>)
    requires
        rice_input(s),
    ensures
        is_rice_choice(s, rice_choice(s).0, rice_choice(s).1),
        rice_choice(s).0 <= 14,
{
    let (k, b) = rice_choice_witness(s);
    lemma_rice_choice_unique(s, k, b);
}

/// The three candidate parameters always have a cheapest one.
proof fn rice_choice_witness(s: Seq<i64>) -> (r: (nat, nat))
    ensures
        is_rice_choice(s, r.0, r.1),
{
    let best = rice_best_upto(s, rice_hi(s));
    (best, rice_cost(s, best))
}

/// Cheapest parameter in `[rice_lo(s), k]`, the lowest on a tie.
proof fn rice_best_upto(s: Seq<i64>, k: nat) -> (best: nat)
    requires
        rice_lo(s) <= k,
    ensures
        rice_lo(s) <= best <= k,
        forall|j: nat| rice_lo(s) <= j <= k ==> rice_cost(s, best) <= #[trigger] rice_cost(s, j),
        forall|j: nat| rice_lo(s) <= j < best ==> #[trigger] rice_cost(s, j) > rice_cost(s, best),
    decreases k,
{
    if k == rice_lo(s) {
        k
    } else {
        let b = rice_best_upto(s, (k - 1) as nat);
        if rice_cost(s, k) < rice_cost(s, b) { k } else { b }
    }
}

/// Splits the residual into 2^order partitions, choosing the order that takes the fewest bits.
pub fn plan_partitions(res: &[i64], order_len: usize, block: usize) -> (r: (u32, Vec<u32>))
    requires
        res.len() + order_len == block,
        rice_input(res@),
    ensures
        is_partition_plan(res@, block as nat, order_len as nat, r.0 as nat, r.1@),
{
    let ghost s = res@;
    let ghost b = block as nat;
    let ghost o = order_len as nat;
    let mut found = false;
    let mut best_total: u64 = 0;
    let mut best_po: u32 = 0;
    let mut best_ks: Vec<u32> = Vec::new();
    best_ks.push(0);
    let mut po: u32 = 0;
    proof { lemma2_to64(); }
    while po <= 6 && fits(block, order_len, po)
        invariant
            po <= 7,
            s == res@,
            b == block,
            o == order_len,
            res.len() + order_len == block,
            rice_input(s),
            forall|j: nat| j < po ==> #[trigger] po_fits(b, o, j),
            found == (po > 0),
            !found ==> best_po == 0 && best_ks@ == seq![0u32],
            found ==> best_po < po && best_total == plan_total(s, b, o, best_po as nat)
                && best_ks@ == part_ks(s, b, o, best_po as nat),
            forall|j: nat| j < po ==> plan_total(s, b, o, best_po as nat) <= #[trigger] plan_total(s, b, o, j),
            forall|j: nat| j < best_po ==> #[trigger] plan_total(s, b, o, j) > plan_total(s, b, o, best_po as nat),
        decreases 7 - po,
    {
        proof {
            vstd::bits::lemma_usize_pow2_no_overflow(po as nat);
            vstd::bits::lemma_usize_shl_is_mul(1, po as usize);
        }
        let parts: usize = 1usize << po;
        let per = block / parts;
        let ghost pn = po as nat;
        let mut total: u64 = 0;
        let mut ks: Vec<u32> = Vec::new();
        let mut p: usize = 0;
        while p < parts
            invariant
                s == res@,
                b == block,
                o == order_len,
                res.len() + order_len == block,
                rice_input(s),
                po_fits(b, o, pn),
                pn <= 6,
                parts == pow2(pn),
                per == part_per(b, pn),
                p <= parts,
                total == part_total(s, b, o, pn, p as nat),
                ks@ == part_ks(s, b, o, pn).subrange(0, p as int),
            decreases parts - p,
        {
            proof {
                lemma_part_bounds(b, o, pn, p as nat);
                assert((p + 1) * per == p * per + per) by (nonlinear_arith);
            }
            let start = if p == 0 { 0 } else { p * per - order_len };
            let end = (p + 1) * per - order_len;
            let ghost sl = part_slice(s, b, o, pn, p as nat);
            proof {
                lemma_slice_rice_input(s, start as int, end as int);
            }
            let (k, bits) = best_rice(&res[start..end]);
            proof {
                assert(res@.subrange(start as int, end as int) == sl);
                lemma_part_total_bound(s, b, o, pn, (p + 1) as nat);
                assert((s.len() as int) * 0x400_0000_0000 + 4 * 64 < 0x1_0000_0000_0000_0000) by (nonlinear_arith)
                    requires s.len() < 0x40_0000;
                lemma2_to64();
                if pn < 6 { lemma_pow2_strictly_increases(pn, 6); }
                assert(part_total(s, b, o, pn, (p + 1) as nat) == total + bits + 4);
                assert((part_end(b, o, pn, p as nat)) * 0x400_0000_0000 <= (s.len() as int) * 0x400_0000_0000) by (nonlinear_arith)
                    requires part_end(b, o, pn, p as nat) <= s.len();
            }
            total = total + bits + 4;
            ks.push(k);
            proof {
                assert(ks@ =~= part_ks(s, b, o, pn).subrange(0, p + 1));
            }
            p = p + 1;
        }
        proof {
            assert(ks@ =~= part_ks(s, b, o, pn));
        }
        if !found || total < best_total {
            best_total = total;
            best_po = po;
            best_ks = ks;
        }
        found = true;
        po = po + 1;
    }
    proof {
        if po_fits(b, o, 0) {
            assert(found);
            assert forall|j: nat| po_valid(b, o, j) implies
                plan_total(s, b, o, best_po as nat) <= #[trigger] plan_total(s, b, o, j) by {
                if j >= po {
                    assert(po_fits(b, o, po as nat));
                    assert(po <= 6);
                }
            }
            assert forall|j: nat| j <= best_po implies #[trigger] po_fits(b, o, j) by {}
        }
    }
    (best_po, best_ks)
}

fn fits(block: usize, order_len: usize, po: u32) -> (r: bool)
    requires
        po <= 6,
    ensures
        r == po_fits(block as nat, order_len as nat, po as nat),
{
    proof {
        vstd::bits::lemma_usize_pow2_no_overflow(po as nat);
        vstd::bits::lemma_usize_shl_is_mul(1, po as usize);
        lemma2_to64();
    }
    let parts: usize = 1usize << po;
    block % parts == 0 && block / parts > order_len
}


proof fn lemma_partition_plan_unique(res: Seq<i64>, block: nat, order: nat, po: nat, ks: Seq<u32>, po2: nat, ks2: Seq<u32>)
    requires
        is_partition_plan(res, block, order, po, ks),
        is_partition_plan(res, block, order, po2, ks2),
    ensures
        po == po2,
        ks == ks2,
{
    if po_fits(block, order, 0) {
        if po < po2 {
            assert(plan_total(res, block, order, po) > plan_total(res, block, order, po2));
        }
        if po2 < po {
            assert(plan_total(res, block, order, po2) > plan_total(res, block, order, po));
        }
    }
}

/// The partition plan the encoder picks for a residual.
pub open spec fn plan_choice(res: Seq<i64>, block: nat, order: nat) -> (nat, Seq<u32>) {
    choose|p: (nat, Seq<u32>)| is_partition_plan(res, block, order, p.0, p.1)
}

// ---------- subframes ----------

/// Two's-complement fields of `bps` bits for each sample.
pub open spec fn signed_run(x: Seq<i32>, bps: nat) -> Seq<bool>
    decreases x.len(),
{
    if x.len() == 0 {
        Seq::empty()
    } else {
        signed_run(x.drop_last(), bps) + signed_bits(x.last() as int, bps)
    }
}

/// Rice codes of a residual run.
pub open spec fn rice_run(r: Seq<i64>, k: nat) -> Seq<bool>
    decreases r.len(),
{
    if r.len() == 0 {
        Seq::empty()
    } else {
        rice_run(r.drop_last(), k) + rice_bits(r.last() as int, k)
    }
}

/// The first `m` partitions: each a 4-bit parameter and the Rice codes of its residuals.
pub open spec fn partitions_bits(res: Seq<i64>, n: nat, order: nat, po: nat, ks: Seq<u32>, m: nat) -> Seq<bool>
    decreases m,
{
    if m == 0 {
        Seq::empty()
    } else {
        let p = (m - 1) as nat;
        partitions_bits(res, n, order, po, ks, p) + nat_bits(ks[p as int] as nat, 4)
            + rice_run(part_slice(res, n, order, po, p), ks[p as int] as nat)
    }
}

/// Residual of the fixed predictor as 64-bit values.
pub open spec fn residual_i64(x: Seq<i32>, order: nat) -> Seq<i64> {
    Seq::new((x.len() - order) as nat, |j: int| fixed_residual(x, order, j + order) as i64)
}

/// A constant subframe: header 0 and the value once.
pub open spec fn constant_bits(x: Seq<i32>, bps: nat) -> Seq<bool> {
    nat_bits(0, 8) + signed_bits(x[0] as int, bps)
}

/// A verbatim subframe: header 2 and every sample.
pub open spec fn verbatim_bits(x: Seq<i32>, bps: nat) -> Seq<bool> {
    nat_bits(2, 8) + signed_run(x, bps)
}

/// A fixed-predictor subframe of order `order`: header, warm-up samples, Rice method (0),
/// partition order and the partitions.
pub open spec fn fixed_bits(x: Seq<i32>, order: nat, bps: nat) -> Seq<bool> {
    let res = residual_i64(x, order);
    let plan = plan_choice(res, x.len(), order);
    nat_bits((8 + order) * 2, 8) + signed_run(x.subrange(0, order as int), bps) + nat_bits(0, 2)
        + nat_bits(plan.0, 4) + partitions_bits(res, x.len(), order, plan.0, plan.1, pow2(plan.0))
}

pub open spec fn max_order(n: nat) -> nat {
    if n >= 5 { 4 } else { (n - 1) as nat }
}

/// The fixed order in `[0, m]` whose subframe is shortest (the lowest on a tie).
pub open spec fn best_order_upto(x: Seq<i32>, bps: nat, m: nat) -> nat
    decreases m,
{
    if m == 0 {
        0
    } else {
        let b = best_order_upto(x, bps, (m - 1) as nat);
        if fixed_bits(x, m, bps).len() < fixed_bits(x, b, bps).len() { m } else { b }
    }
}

pub open spec fn all_equal(x: Seq<i32>) -> bool {
    forall|i: int| 0 <= i < x.len() ==> #[trigger] x[i] == x[0]
}

/// One channel as a subframe: constant if every sample is the same, otherwise the shortest
/// fixed-predictor encoding unless the verbatim one is not longer.
#[verifier::opaque]
pub open spec fn subframe_bits(x: Seq<i32>, bps: nat) -> Seq<bool> {
    if all_equal(x) {
        constant_bits(x, bps)
    } else {
        let f = fixed_bits(x, best_order_upto(x, bps, max_order(x.len())), bps);
        if f.len() < verbatim_bits(x, bps).len() { f } else { verbatim_bits(x, bps) }
    }
}

proof fn lemma_best_order_upto(x: Seq<i32>, bps: nat, m: nat)
    ensures
        best_order_upto(x, bps, m) <= m,
    decreases m,
{
    if m > 0 {
        lemma_best_order_upto(x, bps, (m - 1) as nat);
    }
}

/// A subframe is never longer than the samples written out plainly (8 header bits and `bps`
/// bits a sample), and its header byte is zero exactly when it is a constant subframe, that
/// is, when every sample is the same.
pub proof fn lemma_subframe_shape(x: Seq<i32>, bps: nat)
    requires
        x.len() >= 1,
    ensures
        subframe_bits(x, bps).len() <= 8 + x.len() * bps,
        all_equal(x) <==> subframe_bits(x, bps).subrange(0, 8) == nat_bits(0, 8),
{
    reveal(subframe_bits);
    lemma2_to64();
    lemma_nat_bits_len(0, 8);
    lemma_nat_bits_len(2, 8);
    lemma_signed_run_len(x, bps);
    lemma_bits_value_nat_bits(0, 8);
    lemma_bits_value_nat_bits(2, 8);
    let v = verbatim_bits(x, bps);
    assert(v.subrange(0, 8) =~= nat_bits(2, 8));
    if all_equal(x) {
        let c = constant_bits(x, bps);
        lemma_nat_bits_len((x[0] as int % (pow2(bps) as int)) as nat, bps);
        assert(bps <= x.len() * bps) by (nonlinear_arith) requires x.len() >= 1;
        assert(c.subrange(0, 8) =~= nat_bits(0, 8));
    } else {
        let order = best_order_upto(x, bps, max_order(x.len()));
        lemma_best_order_upto(x, bps, max_order(x.len()));
        let f = fixed_bits(x, order, bps);
        let h = (8 + order) * 2;
        lemma_nat_bits_len(h, 8);
        lemma_bits_value_nat_bits(h, 8);
        assert(f.subrange(0, 8) =~= nat_bits(h, 8));
        if f.len() < v.len() {
            assert(f.subrange(0, 8) != nat_bits(0, 8));
        } else {
            assert(v.subrange(0, 8) != nat_bits(0, 8));
        }
    }
}

fn encode_signed_run(b: &mut Bits, x: &[i32], bps: u32)
    requires
        old(b).wf(),
        1 <= bps <= 32,
    ensures
        final(b).wf(),
        final(b).bits() == old(b).bits() + signed_run(x@, bps as nat),
{
    let ghost start = b.bits();
    let mut i: usize = 0;
    while i < x.len()
        invariant
            b.wf(),
            1 <= bps <= 32,
            i <= x.len(),
            b.bits() == start + signed_run(x@.subrange(0, i as int), bps as nat),
        decreases x.len() - i,
    {
        b.put_signed(x[i] as i64, bps);
        proof {
            lemma_prefix_drop_last(x@, i as int);
            assert(start + signed_run(x@.subrange(0, i as int), bps as nat) + signed_bits(x[i as int] as int, bps as nat)
                =~= start + signed_run(x@.subrange(0, i + 1), bps as nat));
        }
        i = i + 1;
    }
    assert(x@.subrange(0, i as int) =~= x@);
}

fn encode_rice_run(b: &mut Bits, r: &[i64], k: u32)
    requires
        old(b).wf(),
        k <= 14,
        rice_input(r@),
    ensures
        final(b).wf(),
        final(b).bits() == old(b).bits() + rice_run(r@, k as nat),
{
    let ghost start = b.bits();
    let mut i: usize = 0;
    while i < r.len()
        invariant
            b.wf(),
            k <= 14,
            rice_input(r@),
            i <= r.len(),
            b.bits() == start + rice_run(r@.subrange(0, i as int), k as nat),
        decreases r.len() - i,
    {
        assert(small(r@[i as int] as int));
        b.rice(r[i], k);
        proof {
            lemma_prefix_drop_last(r@, i as int);
            assert(start + rice_run(r@.subrange(0, i as int), k as nat) + rice_bits(r[i as int] as int, k as nat)
                =~= start + rice_run(r@.subrange(0, i + 1), k as nat));
        }
        i = i + 1;
    }
    assert(r@.subrange(0, i as int) =~= r@);
}

proof fn lemma_residual_small(x: Seq<i32>, order: nat, j: int)
    requires
        order <= 4,
        order <= j < x.len(),
    ensures
        -0x8_0000_0000 <= fixed_residual(x, order, j) <= 0x8_0000_0000,
{
}

/// Fixed-predictor subframe of order `order`.
fn encode_fixed(x: &[i32], order: usize, bps: u32) -> (b: Bits)
    requires
        order <= 4,
        order < x.len(),
        x.len() < 0x40_0000,
        1 <= bps <= 32,
    ensures
        b.wf(),
        b.bits() == fixed_bits(x@, order as nat, bps as nat),
{
    let n = x.len();
    let res = residual(x, order);
    let ghost rs = residual_i64(x@, order as nat);
    proof {
        assert forall|j: int| 0 <= j < res.len() implies #[trigger] res@[j] == rs[j] by {
            lemma_residual_small(x@, order as nat, j + order);
            assert(res[j] as int == fixed_residual(x@, order as nat, j + order));
        }
        assert(res@ =~= rs);
        assert forall|j: int| 0 <= j < rs.len() implies small(#[trigger] rs[j] as int) by {
            lemma_residual_small(x@, order as nat, j + order);
        }
    }
    let (po, ks) = plan_partitions(&res, order, n);
    proof {
        let w = (po as nat, ks@);
        assert(is_partition_plan(rs, n as nat, order as nat, w.0, w.1));
        let c = plan_choice(rs, n as nat, order as nat);
        assert(is_partition_plan(rs, n as nat, order as nat, c.0, c.1));
        lemma_partition_plan_unique(rs, n as nat, order as nat, po as nat, ks@, c.0, c.1);
        lemma2_to64();
        assert(po_fits(n as nat, order as nat, 0));
    }
    let mut b = Bits::new();
    let ghost b0 = b.bits();
    proof { lemma2_to64(); }
    b.put((0b001000 + order as u64) * 2, 8);
    encode_signed_run(&mut b, &x[0..order], bps);
    b.put(0, 2);
    b.put(po as u64, 4);
    let per = n >> po;
    let ghost head = b.bits();
    let mut p: usize = 0;
    proof {
        vstd::bits::lemma_usize_shr_is_div(n, po as usize);
        lemma_pow2_strictly_increases(po as nat, 7);
    }
    while p < ks.len()
        invariant
            b.wf(),
            res@ == rs,
            rice_input(rs),
            ks@ == part_ks(rs, n as nat, order as nat, po as nat),
            po_fits(n as nat, order as nat, po as nat),
            po <= 6,
            per == part_per(n as nat, po as nat),
            res.len() + order == n,
            p <= ks.len(),
            b.bits() == head + partitions_bits(rs, n as nat, order as nat, po as nat, ks@, p as nat),
        decreases ks.len() - p,
    {
        let k = ks[p];
        proof {
            lemma_pow2_strictly_increases(po as nat, 7);
            lemma_part_bounds(n as nat, order as nat, po as nat, p as nat);
            assert((p + 1) * per == p * per + per) by (nonlinear_arith);
            let sl = part_slice(rs, n as nat, order as nat, po as nat, p as nat);
            lemma_slice_rice_input(rs, part_start(n as nat, order as nat, po as nat, p as nat), part_end(n as nat, order as nat, po as nat, p as nat));
            lemma_rice_choice_exists(sl);
            lemma2_to64();
        }
        b.put(k as u64, 4);
        let start = if p == 0 { 0 } else { p * per - order };
        let end = (p + 1) * per - order;
        encode_rice_run(&mut b, &res[start..end], k);
        proof {
            assert(res@.subrange(start as int, end as int) == part_slice(rs, n as nat, order as nat, po as nat, p as nat));
        }
        p = p + 1;
    }
    proof {
        assert(x@.subrange(0, order as int) =~= x@.subrange(0, order as int));
        assert(ks.len() == pow2(po as nat));
        let c = plan_choice(rs, n as nat, order as nat);
        assert(c.0 == po && c.1 == ks@);
        assert(b0 =~= Seq::<bool>::empty());
        assert(b.bits() =~= fixed_bits(x@, order as nat, bps as nat));
    }
    b
}


proof fn lemma_signed_run_len(x: Seq<i32>, bps: nat)
    ensures
        signed_run(x, bps).len() == x.len() * bps,
    decreases x.len(),
{
    if x.len() > 0 {
        lemma_signed_run_len(x.drop_last(), bps);
        lemma_nat_bits_len((x.last() as int % (pow2(bps) as int)) as nat, bps);
        assert((x.len() - 1) * bps + bps == x.len() * bps) by (nonlinear_arith);
    }
}

pub open spec fn bounded35(r: Seq<i64>) -> bool {
    forall|i: int| 0 <= i < r.len() ==> -0x8_0000_0000 <= #[trigger] r[i] <= 0x8_0000_0000
}

proof fn lemma_rice_run_len(r: Seq<i64>, k: nat)
    requires
        k <= 14,
        bounded35(r),
    ensures
        rice_run(r, k).len() <= r.len() * 0x20_0000_0000,
    decreases r.len(),
{
    if r.len() > 0 {
        assert(bounded35(r.drop_last())) by {
            assert forall|i: int| 0 <= i < r.drop_last().len() implies
                -0x8_0000_0000 <= #[trigger] r.drop_last()[i] <= 0x8_0000_0000 by {
                assert(r.drop_last()[i] == r[i]);
            }
        }
        lemma_rice_run_len(r.drop_last(), k);
        let v = r.last() as int;
        assert(-0x8_0000_0000 <= r[r.len() - 1] <= 0x8_0000_0000);
        let z = zigzag(v);
        assert(z <= 0x10_0000_0001);
        lemma_pow2_pos(k);
        vstd::arithmetic::div_mod::lemma_div_is_ordered_by_denominator(z as int, 1, pow2(k) as int);
        lemma_pow2_pos(k);
        vstd::arithmetic::div_mod::lemma_mod_pos_bound(z as int, pow2(k) as int);
        lemma_nat_bits_len(z % pow2(k), k);
        assert(rice_bits(v, k).len() == z / pow2(k) + 1 + k);
        assert((r.len() - 1) * 0x20_0000_0000 + 0x20_0000_0000 == r.len() * 0x20_0000_0000) by (nonlinear_arith);
    }
}

proof fn lemma_partitions_len(res: Seq<i64>, n: nat, order: nat, po: nat, ks: Seq<u32>, m: nat)
    requires
        po_fits(n, order, po),
        res.len() + order == n,
        bounded35(res),
        ks.len() == pow2(po),
        forall|i: int| 0 <= i < ks.len() ==> #[trigger] ks[i] <= 14,
        m <= pow2(po),
    ensures
        partitions_bits(res, n, order, po, ks, m).len()
            <= 4 * m + (if m == 0 { 0 } else { part_end(n, order, po, (m - 1) as nat) }) * 0x20_0000_0000,
    decreases m,
{
    if m > 0 {
        let p = (m - 1) as nat;
        lemma_partitions_len(res, n, order, po, ks, p);
        lemma_part_bounds(n, order, po, p);
        if p > 0 {
            lemma_part_bounds(n, order, po, (p - 1) as nat);
        }
        let st = part_start(n, order, po, p);
        let e = part_end(n, order, po, p);
        let sl = part_slice(res, n, order, po, p);
        assert(bounded35(sl)) by {
            assert forall|i: int| 0 <= i < sl.len() implies -0x8_0000_0000 <= #[trigger] sl[i] <= 0x8_0000_0000 by {
                assert(sl[i] == res[st + i]);
            }
        }
        assert(ks[p as int] <= 14);
        lemma_rice_run_len(sl, ks[p as int] as nat);
        lemma_nat_bits_len(ks[p as int] as nat, 4);
        assert(st * 0x20_0000_0000 + (e - st) * 0x20_0000_0000 == e * 0x20_0000_0000) by (nonlinear_arith);
    }
}

proof fn lemma_fixed_len(x: Seq<i32>, order: nat, bps: nat)
    requires
        order <= 4,
        order < x.len(),
        x.len() < 0x40_0000,
        bps <= 32,
    ensures
        fixed_bits(x, order, bps).len() < 0x1000_0000_0000_0000,
{
    let res = residual_i64(x, order);
    let plan = plan_choice(res, x.len(), order);
    assert(bounded35(res)) by {
        assert forall|i: int| 0 <= i < res.len() implies -0x8_0000_0000 <= #[trigger] res[i] <= 0x8_0000_0000 by {
            lemma_residual_small(x, order, i + order);
        }
    }
    assert(rice_input(res)) by {
        assert forall|i: int| 0 <= i < res.len() implies small(#[trigger] res[i] as int) by {
            lemma_residual_small(x, order, i + order);
        }
    }
    lemma2_to64();
    assert(po_fits(x.len(), order, 0));
    let w = plan_witness(res, x.len(), order);
    lemma_partition_plan_unique(res, x.len(), order, w.0, w.1, plan.0, plan.1);
    assert(po_valid(x.len(), order, plan.0));
    assert(po_fits(x.len(), order, plan.0));
    lemma_pow2_pos(plan.0);
    if plan.0 < 6 { lemma_pow2_strictly_increases(plan.0, 6); }
    assert forall|i: int| 0 <= i < plan.1.len() implies #[trigger] plan.1[i] <= 14 by {
        let sl = part_slice(res, x.len(), order, plan.0, i as nat);
        lemma_part_bounds(x.len(), order, plan.0, i as nat);
        lemma_slice_rice_input(res, part_start(x.len(), order, plan.0, i as nat), part_end(x.len(), order, plan.0, i as nat));
        lemma_rice_choice_exists(sl);
    }
    lemma_partitions_len(res, x.len(), order, plan.0, plan.1, pow2(plan.0));
    lemma_part_bounds(x.len(), order, plan.0, (pow2(plan.0) - 1) as nat);
    lemma_signed_run_len(x.subrange(0, order as int), bps);
    lemma_nat_bits_len((8 + order) * 2, 8);
    lemma_nat_bits_len(0, 2);
    lemma_nat_bits_len(plan.0, 4);
    assert(part_end(x.len(), order, plan.0, (pow2(plan.0) - 1) as nat) * 0x20_0000_0000 <= 0x40_0000 * 0x20_0000_0000) by (nonlinear_arith)
        requires part_end(x.len(), order, plan.0, (pow2(plan.0) - 1) as nat) <= 0x40_0000;
    assert(order * bps <= 128) by (nonlinear_arith) requires order <= 4, bps <= 32;
    assert(x.subrange(0, order as int).len() == order);
    lemma2_to64();
    assert(pow2(plan.0) <= 64);
    let pb = partitions_bits(res, x.len(), order, plan.0, plan.1, pow2(plan.0));
    assert(pb.len() <= 256 + 0x40_0000 * 0x20_0000_0000);
    assert(fixed_bits(x, order, bps).len() == 8 + order * bps + 2 + 4 + pb.len());
}

/// A plan always exists: the exact search of `plan_partitions`, done in ghost code.
proof fn plan_witness(res: Seq<i64>, block: nat, order: nat) -> (r: (nat, Seq<u32>))
    ensures
        is_partition_plan(res, block, order, r.0, r.1),
{
    if !po_fits(block, order, 0) {
        (0, seq![0u32])
    } else {
        let top = top_valid(block, order, 0);
        let best = best_po_upto(res, block, order, top);
        assert forall|j: nat| po_valid(block, order, j) implies
            plan_total(res, block, order, best) <= #[trigger] plan_total(res, block, order, j) by {
            if j > top {
                assert(po_fits(block, order, (top + 1) as nat));
            }
        }
        (best, part_ks(res, block, order, best))
    }
}

/// The highest valid partition order at or above `j` (given `j` is valid).
proof fn top_valid(block: nat, order: nat, j: nat) -> (t: nat)
    requires
        po_valid(block, order, j),
    ensures
        j <= t,
        po_valid(block, order, t),
        t == 6 || !po_fits(block, order, t + 1),
    decreases 6 - j,
{
    if j < 6 && po_fits(block, order, j + 1) {
        assert forall|i: nat| i <= j + 1 implies #[trigger] po_fits(block, order, i) by {
            if i <= j {
                assert(po_fits(block, order, i));
            }
        }
        top_valid(block, order, j + 1)
    } else {
        j
    }
}

/// The cheapest partition order in `[0, m]`, the lowest on a tie.
proof fn best_po_upto(res: Seq<i64>, block: nat, order: nat, m: nat) -> (best: nat)
    requires
        po_valid(block, order, m),
    ensures
        best <= m,
        po_valid(block, order, best),
        forall|j: nat| j <= m ==> plan_total(res, block, order, best) <= #[trigger] plan_total(res, block, order, j),
        forall|j: nat| j < best ==> #[trigger] plan_total(res, block, order, j) > plan_total(res, block, order, best),
    decreases m,
{
    if m == 0 {
        0
    } else {
        assert(po_valid(block, order, (m - 1) as nat)) by {
            assert forall|i: nat| i <= (m - 1) as nat implies #[trigger] po_fits(block, order, i) by {
                assert(i <= m);
            }
        }
        let b = best_po_upto(res, block, order, (m - 1) as nat);
        if plan_total(res, block, order, m) < plan_total(res, block, order, b) { m } else { b }
    }
}

/// One channel as a subframe: constant, the shortest fixed-predictor form, or verbatim.
pub fn subframe(x: &[i32], bps: u32) -> (b: Bits)
    requires
        1 <= x.len() < 0x40_0000,
        1 <= bps <= 32,
    ensures
        b.wf(),
        b.bits() == subframe_bits(x@, bps as nat),
{
    reveal(subframe_bits);
    let n = x.len();
    let mut same = true;
    let mut i: usize = 1;
    while i < n
        invariant
            1 <= i <= n,
            n == x.len(),
            same == (forall|j: int| 0 <= j < i ==> #[trigger] x@[j] == x@[0]),
        decreases n - i,
    {
        if x[i] != x[0] {
            same = false;
        }
        i = i + 1;
    }
    if same {
        let mut out = Bits::new();
        proof { lemma2_to64(); }
        out.put(0, 8);
        out.put_signed(x[0] as i64, bps);
        assert(out.bits() =~= constant_bits(x@, bps as nat));
        return out;
    }
    let max_o: usize = if n >= 5 { 4 } else { n - 1 };
    let mut best = encode_fixed(x, 0, bps);
    let ghost mut best_o: nat = 0;
    proof {
        lemma_fixed_len(x@, 0, bps as nat);
    }
    let mut order: usize = 1;
    while order <= max_o
        invariant
            1 <= order <= max_o + 1,
            max_o == max_order(n as nat),
            n == x.len(),
            1 <= n < 0x40_0000,
            1 <= bps <= 32,
            best.wf(),
            best_o == best_order_upto(x@, bps as nat, (order - 1) as nat),
            best.bits() == fixed_bits(x@, best_o, bps as nat),
            best_o <= 4,
            best.bits().len() < 0x1000_0000_0000_0000,
        decreases max_o + 1 - order,
    {
        let b = encode_fixed(x, order, bps);
        proof {
            lemma_fixed_len(x@, order as nat, bps as nat);
        }
        if b.bit_len() < best.bit_len() {
            best = b;
            proof { best_o = order as nat; }
        }
        order = order + 1;
    }
    let mut verbatim = Bits::new();
    proof { lemma2_to64(); }
    verbatim.put(0b000001 * 2, 8);
    encode_signed_run(&mut verbatim, x, bps);
    proof {
        lemma_signed_run_len(x@, bps as nat);
        lemma_nat_bits_len(2, 8);
        assert(n * bps <= 0x40_0000 * 32) by (nonlinear_arith) requires n < 0x40_0000, bps <= 32;
        assert(verbatim.bits() =~= verbatim_bits(x@, bps as nat));
        assert(!all_equal(x@));
    }
    if best.bit_len() < verbatim.bit_len() {
        best
    } else {
        verbatim
    }
}


// ---------- frames ----------

pub const BLOCK: usize = 4096;

/// Bytes of the "UTF-8 like" frame number coding, for a given width.
pub open spec fn utf8_width(n: nat, nb: nat) -> nat
    decreases 8 - nb,
{
    if nb >= 7 || n < pow2(5 * nb + 1) { nb } else { utf8_width(n, nb + 1) }
}

/// Frame number coded like UTF-8 (extended to 36 bits).
pub open spec fn frame_number_bytes(n: u64) -> Seq<u8> {
    if n < 0x80 {
        seq![n as u8]
    } else {
        let nb = utf8_width(n as nat, 2);
        seq![(((0xFF00u64 >> nb) & 0xFFu64) | (n >> (6 * (nb - 1)) as u64)) as u8]
            + Seq::new((nb - 1) as nat, |j: int| (0x80u64 | ((n >> (6 * (nb - 2 - j)) as u64) & 0x3Fu64)) as u8)
    }
}

/// Block size code: 4096 directly, any other size as "16-bit size - 1 follows".
pub open spec fn block_size_code(frames: nat) -> nat {
    if frames == 4096 { 0b1100 } else { 0b0111 }
}

/// Sample rate code; rates without a code are taken from STREAMINFO (code 0).
pub open spec fn sample_rate_code(rate: u32) -> nat {
    if rate == 44100 {
        0b1001
    } else if rate == 48000 {
        0b1010
    } else if rate == 32000 {
        0b1000
    } else if rate == 88200 {
        0b0001
    } else if rate == 96000 {
        0b0010
    } else {
        0
    }
}

/// Frame header up to (not including) its CRC-8.
pub open spec fn frame_header_bits(frames: nat, rate: u32, assign: nat, n: u64) -> Seq<bool> {
    nat_bits(0x7FFC, 15) + nat_bits(0, 1) + nat_bits(block_size_code(frames), 4)
        + nat_bits(sample_rate_code(rate), 4) + nat_bits(assign, 4) + nat_bits(0b100, 3)
        + nat_bits(0, 1) + bytes_bits(frame_number_bytes(n))
        + if frames == 4096 { Seq::<bool>::empty() } else { nat_bits((frames - 1) as nat, 16) }
}

/// Channel `c` of an interleaved block.
pub open spec fn chan_spec(block: Seq<i16>, ch: nat, c: nat, frames: nat) -> Seq<i32> {
    Seq::new(frames, |i: int| block[i * ch + c] as i32)
}

/// Mid channel: floor of the mean of left and right.
pub open spec fn mid_spec(l: Seq<i32>, r: Seq<i32>) -> Seq<i32> {
    Seq::new(l.len(), |i: int| ((l[i] as int + r[i] as int) / 2) as i32)
}

/// Side channel: left minus right.
pub open spec fn side_spec(l: Seq<i32>, r: Seq<i32>) -> Seq<i32> {
    Seq::new(l.len(), |i: int| (l[i] - r[i]) as i32)
}

/// Mid/side decorrelation is lossless: left and right come back from mid and side.
pub proof fn lemma_mid_side_lossless(l: i32, r: i32)
    requires
        -0x8000 <= l < 0x8000,
        -0x8000 <= r < 0x8000,
    ensures
        ({
            let m = (l as int + r as int) / 2;
            let s = l as int - r as int;
            &&& l as int == (2 * m + s % 2 + s) / 2
            &&& r as int == (2 * m + s % 2 - s) / 2
        }),
{
}

/// Channel assignment and subframes: mono, or the cheapest of L/R, L/S, S/R and M/S
/// (the first on a tie). Side carries 17 bits per sample.
pub open spec fn channel_coding(block: Seq<i16>, ch: nat, frames: nat) -> (nat, Seq<bool>) {
    if ch == 1 {
        (0, subframe_bits(chan_spec(block, ch, 0, frames), 16))
    } else {
        let l = chan_spec(block, ch, 0, frames);
        let r = chan_spec(block, ch, 1, frames);
        let sl = subframe_bits(l, 16);
        let sr = subframe_bits(r, 16);
        let sm = subframe_bits(mid_spec(l, r), 16);
        let ss = subframe_bits(side_spec(l, r), 17);
        let c1 = sl.len() + sr.len();
        let c8 = sl.len() + ss.len();
        let c9 = ss.len() + sr.len();
        let c10 = sm.len() + ss.len();
        if c1 <= c8 && c1 <= c9 && c1 <= c10 {
            (1, sl + sr)
        } else if c8 <= c9 && c8 <= c10 {
            (8, sl + ss)
        } else if c9 <= c10 {
            (9, ss + sr)
        } else {
            (10, sm + ss)
        }
    }
}

/// Bytes of a bit string whose length is a multiple of 8.
pub open spec fn bits_to_bytes(s: Seq<bool>) -> Seq<u8> {
    Seq::new(s.len() / 8, |i: int| bits_value(s.subrange(8 * i, 8 * i + 8)) as u8)
}

/// Zero bits up to the next byte boundary.
pub open spec fn pad_to_byte(s: Seq<bool>) -> Seq<bool> {
    s + zeros(((8 - s.len() % 8) % 8) as nat)
}

/// A complete FLAC frame: header, CRC-8, byte-aligned subframes and CRC-16 (big-endian).
pub open spec fn frame_spec(block: Seq<i16>, ch: nat, frames: nat, rate: u32, n: u64) -> Seq<u8> {
    let coding = channel_coding(block, ch, frames);
    let h = bits_to_bytes(frame_header_bits(frames, rate, coding.0, n));
    let f = h.push(crc8_spec(h)) + bits_to_bytes(pad_to_byte(coding.1));
    let c = crc16_spec(f);
    f.push((c >> 8u16) as u8).push((c & 0xFFu16) as u8)
}

/// Every frame checks out: its header followed by the CRC-8 byte has CRC-8 zero, and the whole
/// frame, ending with its CRC-16, has CRC-16 zero.
pub proof fn lemma_frame_checks(block: Seq<i16>, ch: nat, frames: nat, rate: u32, n: u64)
    ensures
        ({
            let h = bits_to_bytes(frame_header_bits(frames, rate, channel_coding(block, ch, frames).0, n));
            let fr = frame_spec(block, ch, frames, rate, n);
            &&& crc8_spec(fr.subrange(0, h.len() as int + 1)) == 0
            &&& crc16_spec(fr) == 0
        }),
{
    let coding = channel_coding(block, ch, frames);
    let h = bits_to_bytes(frame_header_bits(frames, rate, coding.0, n));
    let f = h.push(crc8_spec(h)) + bits_to_bytes(pad_to_byte(coding.1));
    let fr = frame_spec(block, ch, frames, rate, n);
    assert(fr.subrange(0, h.len() as int + 1) =~= h.push(crc8_spec(h)));
    lemma_crc8_residue(h);
    lemma_crc16_residue(f);
}

proof fn lemma_bits_to_bytes(b: Seq<u8>)
    ensures
        bits_to_bytes(bytes_bits(b)) == b,
    decreases b.len(),
{
    lemma_bytes_bits_len(b);
    if b.len() > 0 {
        lemma_bits_to_bytes(b.drop_last());
        let s = bytes_bits(b);
        let t = bytes_bits(b.drop_last());
        lemma_bytes_bits_len(b.drop_last());
        assert forall|i: int| 0 <= i < b.len() implies #[trigger] bits_to_bytes(s)[i] == b[i] by {
            if i < b.len() - 1 {
                assert(s.subrange(8 * i, 8 * i + 8) =~= t.subrange(8 * i, 8 * i + 8));
                assert(bits_to_bytes(t)[i] == b.drop_last()[i]);
            } else {
                lemma2_to64();
                lemma_nat_bits_len(b.last() as nat, 8);
                assert(s.subrange(8 * i, 8 * i + 8) =~= nat_bits(b.last() as nat, 8));
                lemma_bits_value_nat_bits(b.last() as nat, 8);
            }
        }
        assert(bits_to_bytes(s) =~= b);
    } else {
        assert(bits_to_bytes(bytes_bits(b)) =~= b);
    }
}

/// Writes the frame number coded like UTF-8.
fn put_frame_number(h: &mut Bits, n: u64)
    requires
        old(h).wf(),
        n < 0x10_0000_0000,
    ensures
        final(h).wf(),
        final(h).bits() == old(h).bits() + bytes_bits(frame_number_bytes(n)),
{
    let ghost start = h.bits();
    proof { lemma2_to64(); lemma2_to64_rest(); }
    if n < 0x80 {
        h.put(n, 8);
        proof {
            lemma_bytes_bits_push(Seq::<u8>::empty(), n as u8);
            assert(Seq::<u8>::empty().push(n as u8) =~= seq![n as u8]);
            assert(bytes_bits(Seq::<u8>::empty()) =~= Seq::<bool>::empty());
            assert(start + nat_bits(n as nat, 8) =~= start + bytes_bits(frame_number_bytes(n)));
        }
        return;
    }
    let mut nbytes: u32 = 2;
    proof { vstd::bits::lemma_u64_shl_is_mul(1, 11); }
    while n >= (1u64 << (5 * nbytes + 1))
        invariant
            2 <= nbytes <= 7,
            n < 0x10_0000_0000,
            utf8_width(n as nat, 2) == utf8_width(n as nat, nbytes as nat),
            (1u64 << (5 * nbytes + 1)) == pow2((5 * nbytes + 1) as nat),
        decreases 7 - nbytes,
    {
        proof {
            if nbytes == 7 {
                lemma2_to64_rest();
                assert(pow2(36) == 0x10_0000_0000);
            }
        }
        nbytes = nbytes + 1;
        proof {
            vstd::bits::lemma_u64_pow2_no_overflow((5 * nbytes + 1) as nat);
            vstd::bits::lemma_u64_shl_is_mul(1, (5 * nbytes + 1) as u64);
        }
    }
    let ghost nb = nbytes as nat;
    assert(utf8_width(n as nat, 2) == nb);
    let lead = (0xFF00u64 >> nbytes) & 0xFF;
    let sh: u32 = 6 * (nbytes - 1);
    let lim: u32 = 5 * nbytes + 1;
    let first = lead | (n >> sh);
    assert(first < 256) by (bit_vector)
        requires
            n < (1u64 << lim),
            lim == 5 * nbytes + 1,
            sh == 6 * (nbytes - 1),
            2 <= nbytes <= 7,
            lead == (0xFF00u64 >> nbytes) & 0xFF,
            first == lead | (n >> sh);
    h.put(first, 8);
    let ghost bytes = frame_number_bytes(n);
    proof {
        assert(bytes[0] == first as u8);
        lemma_bytes_bits_push(Seq::<u8>::empty(), first as u8);
        assert(Seq::<u8>::empty().push(first as u8) =~= bytes.subrange(0, 1));
        assert(bytes_bits(Seq::<u8>::empty()) =~= Seq::<bool>::empty());
        assert(h.bits() =~= start + bytes_bits(bytes.subrange(0, 1)));
    }
    let mut i: u32 = nbytes - 1;
    while i > 0
        invariant
            0 <= i <= nbytes - 1,
            2 <= nbytes <= 7,
            nb == nbytes,
            h.wf(),
            bytes == frame_number_bytes(n),
            n >= 0x80,
            utf8_width(n as nat, 2) == nb,
            bytes.len() == nb,
            h.bits() == start + bytes_bits(bytes.subrange(0, (nbytes - i) as int)),
        decreases i,
    {
        i = i - 1;
        let sh: u32 = 6 * i;
        let byte = 0x80 | ((n >> sh) & 0x3F);
        assert(byte < 256) by (bit_vector)
            requires byte == 0x80 | ((n >> sh) & 0x3F);
        proof { lemma2_to64(); }
        h.put(byte, 8);
        proof {
            let j = (nbytes - 1 - i) as int;
            let tail = Seq::new((nb - 1) as nat, |t: int| (0x80u64 | ((n >> (6 * (nb - 2 - t)) as u64) & 0x3Fu64)) as u8);
            assert(bytes == seq![bytes[0]] + tail);
            assert(bytes[j] == tail[j - 1]);
            assert((6 * (nb - 2 - (j - 1))) as u64 == sh as u64);
            assert(bytes[j] == byte as u8);
            lemma_bytes_bits_push(bytes.subrange(0, j), byte as u8);
            assert(bytes.subrange(0, j).push(byte as u8) =~= bytes.subrange(0, j + 1));
        }
    }
    assert(bytes.subrange(0, nbytes as int) =~= bytes);
}


proof fn lemma_subframe_len(x: Seq<i32>, bps: nat)
    requires
        1 <= x.len() < 0x40_0000,
        1 <= bps <= 32,
    ensures
        subframe_bits(x, bps).len() <= 8 + x.len() * bps,
{
    reveal(subframe_bits);
    lemma_nat_bits_len(0, 8);
    lemma_nat_bits_len(2, 8);
    lemma_nat_bits_len((x[0] as int % (pow2(bps) as int)) as nat, bps);
    lemma_signed_run_len(x, bps);
    assert(bps <= x.len() * bps) by (nonlinear_arith) requires x.len() >= 1;
}

fn channel(block: &[i16], ch: usize, c: usize, frames: usize) -> (v: Vec<i32>)
    requires
        c < ch,
        block.len() == frames * ch,
    ensures
        v@ == chan_spec(block@, ch as nat, c as nat, frames as nat),
{
    let mut v: Vec<i32> = Vec::new();
    let mut i: usize = 0;
    while i < frames
        invariant
            c < ch,
            block.len() == frames * ch,
            i <= frames,
            v@ == chan_spec(block@, ch as nat, c as nat, frames as nat).subrange(0, i as int),
        decreases frames - i,
    {
        proof {
            assert(i * ch + c < frames * ch) by (nonlinear_arith)
                requires i < frames, c < ch;
        }
        v.push(block[i * ch + c] as i32);
        proof {
            assert(v@ =~= chan_spec(block@, ch as nat, c as nat, frames as nat).subrange(0, i + 1));
        }
        i = i + 1;
    }
    assert(v@ =~= chan_spec(block@, ch as nat, c as nat, frames as nat));
    v
}

/// Header bits up to the CRC-8.
fn frame_header(frames: usize, rate: u32, assign: u64, n: u64) -> (h: Bits)
    requires
        1 <= frames <= BLOCK,
        assign < 16,
        n < 0x10_0000_0000,
    ensures
        h.wf(),
        h.n == 0,
        h.bits() == frame_header_bits(frames as nat, rate, assign as nat, n),
{
    let mut h = Bits::new();
    proof { lemma2_to64(); }
    h.put(0x7FFC, 15); // sync code (14 bits) and a reserved bit
    h.put(0, 1);
    let bs_code: u64 = if frames == BLOCK { 0b1100 } else { 0b0111 };
    h.put(bs_code, 4);
    let sr_code: u64 = if rate == 44100 {
        0b1001
    } else if rate == 48000 {
        0b1010
    } else if rate == 32000 {
        0b1000
    } else if rate == 88200 {
        0b0001
    } else if rate == 96000 {
        0b0010
    } else {
        0b0000
    };
    h.put(sr_code, 4);
    h.put(assign, 4);
    h.put(0b100, 3);
    h.put(0, 1);
    let ghost before = h.bits();
    assert(before =~= nat_bits(0x7FFC, 15) + nat_bits(0, 1) + nat_bits(block_size_code(frames as nat), 4)
        + nat_bits(sample_rate_code(rate), 4) + nat_bits(assign as nat, 4) + nat_bits(0b100, 3)
        + nat_bits(0, 1));
    put_frame_number(&mut h, n);
    let ghost mid = h.bits();
    if frames != BLOCK {
        proof { lemma2_to64(); }
        h.put(frames as u64 - 1, 16);
    }
    proof {
        let e = if frames == BLOCK { Seq::<bool>::empty() } else { nat_bits((frames - 1) as nat, 16) };
        assert(h.bits() =~= mid + e);
        assert(h.bits() =~= frame_header_bits(frames as nat, rate, assign as nat, n));
        lemma_bytes_bits_len(frame_number_bytes(n));
        lemma_nat_bits_len(0x7FFC, 15);
        lemma_nat_bits_len(0, 1);
        lemma_nat_bits_len(block_size_code(frames as nat), 4);
        lemma_nat_bits_len(sample_rate_code(rate), 4);
        lemma_nat_bits_len(assign as nat, 4);
        lemma_nat_bits_len(0b100, 3);
        lemma_nat_bits_len((frames - 1) as nat, 16);
        lemma_bytes_bits_len(h.bytes@);
        lemma_nat_bits_len(h.acc as nat, h.n as nat);
        assert(h.bits().len() % 8 == 0);
    }
    h
}

/// Bytes written so far when the writer is on a byte boundary.
proof fn lemma_aligned_bytes(b: &Bits)
    requires
        b.wf(),
        b.n == 0,
    ensures
        bits_to_bytes(b.bits()) == b.bytes@,
        bytes_bits(b.bytes@) == b.bits(),
{
    assert(nat_bits(b.acc as nat, 0) =~= Seq::<bool>::empty());
    assert(b.bits() =~= bytes_bits(b.bytes@));
    lemma_bits_to_bytes(b.bytes@);
}

proof fn lemma_utf8_width_bound(n: nat, nb: nat)
    requires
        nb <= 7,
    ensures
        utf8_width(n, nb) <= 7,
        nb <= utf8_width(n, nb),
    decreases 8 - nb,
{
    if !(nb >= 7 || n < pow2(5 * nb + 1)) {
        lemma_utf8_width_bound(n, nb + 1);
    }
}

/// Stereo decorrelation choice between L/R, L/S, S/R and M/S.
pub open spec fn stereo_coding(l: Seq<i32>, r: Seq<i32>) -> (nat, Seq<bool>) {
    let sl = subframe_bits(l, 16);
    let sr = subframe_bits(r, 16);
    let sm = subframe_bits(mid_spec(l, r), 16);
    let ss = subframe_bits(side_spec(l, r), 17);
    let c1 = sl.len() + sr.len();
    let c8 = sl.len() + ss.len();
    let c9 = ss.len() + sr.len();
    let c10 = sm.len() + ss.len();
    if c1 <= c8 && c1 <= c9 && c1 <= c10 {
        (1, sl + sr)
    } else if c8 <= c9 && c8 <= c10 {
        (8, sl + ss)
    } else if c9 <= c10 {
        (9, ss + sr)
    } else {
        (10, sm + ss)
    }
}

fn mid_side(l: &Vec<i32>, r: &Vec<i32>) -> (ms: (Vec<i32>, Vec<i32>))
    requires
        l.len() == r.len(),
        forall|i: int| 0 <= i < l.len() ==> -0x8000 <= #[trigger] l@[i] < 0x8000,
        forall|i: int| 0 <= i < r.len() ==> -0x8000 <= #[trigger] r@[i] < 0x8000,
    ensures
        ms.0@ == mid_spec(l@, r@),
        ms.1@ == side_spec(l@, r@),
{
    let mut mid: Vec<i32> = Vec::new();
    let mut side: Vec<i32> = Vec::new();
    let mut i: usize = 0;
    while i < l.len()
        invariant
            i <= l.len(),
            l.len() == r.len(),
            forall|i: int| 0 <= i < l.len() ==> -0x8000 <= #[trigger] l@[i] < 0x8000,
            forall|i: int| 0 <= i < r.len() ==> -0x8000 <= #[trigger] r@[i] < 0x8000,
            mid@ == mid_spec(l@, r@).subrange(0, i as int),
            side@ == side_spec(l@, r@).subrange(0, i as int),
        decreases l.len() - i,
    {
        let a = l[i];
        let b = r[i];
        let sum = a + b;
        let m = sum >> 1;
        assert(m as int == (a as int + b as int) / 2) by (bit_vector)
            requires sum == a + b, m == sum >> 1, -0x8000 <= a < 0x8000, -0x8000 <= b < 0x8000;
        mid.push(m);
        side.push(a - b);
        proof {
            assert(mid@ =~= mid_spec(l@, r@).subrange(0, i + 1));
            assert(side@ =~= side_spec(l@, r@).subrange(0, i + 1));
        }
        i = i + 1;
    }
    assert(mid@ =~= mid_spec(l@, r@));
    assert(side@ =~= side_spec(l@, r@));
    (mid, side)
}

#[verifier::rlimit(30)]
fn code_stereo(l: &Vec<i32>, r: &Vec<i32>) -> (c: (u64, Bits))
    requires
        1 <= l.len() <= BLOCK,
        l.len() == r.len(),
        forall|i: int| 0 <= i < l.len() ==> -0x8000 <= #[trigger] l@[i] < 0x8000,
        forall|i: int| 0 <= i < r.len() ==> -0x8000 <= #[trigger] r@[i] < 0x8000,
    ensures
        c.0 == stereo_coding(l@, r@).0,
        c.1.wf(),
        c.1.bits() == stereo_coding(l@, r@).1,
        stereo_coding(l@, r@).1.len() <= 2 * (8 + 4096 * 17),
{
    let (mid, side) = mid_side(l, r);
    let sl = subframe(l, 16);
    let sr = subframe(r, 16);
    let sm = subframe(&mid, 16);
    let ss = subframe(&side, 17);
    proof {
        lemma_subframe_len(l@, 16);
        lemma_subframe_len(r@, 16);
        lemma_subframe_len(mid@, 16);
        lemma_subframe_len(side@, 17);
        assert(l.len() * 17 <= 4096 * 17);
        assert(l.len() * 16 <= 4096 * 17);
    }
    let c1 = sl.bit_len() + sr.bit_len();
    let c8 = sl.bit_len() + ss.bit_len();
    let c9 = ss.bit_len() + sr.bit_len();
    let c10 = sm.bit_len() + ss.bit_len();
    let mut body = Bits::new();
    let assign: u64;
    if c1 <= c8 && c1 <= c9 && c1 <= c10 {
        assign = 1;
        body.append(&sl);
        body.append(&sr);
    } else if c8 <= c9 && c8 <= c10 {
        assign = 8;
        body.append(&sl);
        body.append(&ss);
    } else if c9 <= c10 {
        assign = 9;
        body.append(&ss);
        body.append(&sr);
    } else {
        assign = 10;
        body.append(&sm);
        body.append(&ss);
    }
    proof {
        assert(body.bits() =~= stereo_coding(l@, r@).1);
    }
    (assign, body)
}

/// Channel assignment and the subframes of a block, byte aligned.
fn code_channels(block: &[i16], ch: usize, frames: usize) -> (r: (u64, Bits))
    requires
        1 <= ch,
        1 <= frames <= BLOCK,
        block.len() == frames * ch,
    ensures
        r.0 == channel_coding(block@, ch as nat, frames as nat).0,
        r.0 < 16,
        r.1.wf(),
        r.1.n == 0,
        r.1.bits() == pad_to_byte(channel_coding(block@, ch as nat, frames as nat).1),
        channel_coding(block@, ch as nat, frames as nat).1.len() <= 2 * (8 + 4096 * 17),
{
    let ghost coding = channel_coding(block@, ch as nat, frames as nat);
    let assign: u64;
    let body: Bits;
    if ch == 1 {
        let l = channel(block, ch, 0, frames);
        let sub = subframe(&l, 16);
        assign = 0;
        body = sub;
        proof {
            lemma_subframe_len(l@, 16);
            assert(frames * 16 <= 4096 * 17);
        }
    } else {
        let l = channel(block, ch, 0, frames);
        let r = channel(block, ch, 1, frames);
        assert forall|i: int| 0 <= i < l.len() implies -0x8000 <= #[trigger] l@[i] < 0x8000 by {
            assert(l@[i] == block@[i * ch] as i32);
        }
        assert forall|i: int| 0 <= i < r.len() implies -0x8000 <= #[trigger] r@[i] < 0x8000 by {
            assert(r@[i] == block@[i * ch + 1] as i32);
        }
        let c = code_stereo(&l, &r);
        assign = c.0;
        body = c.1;
        proof {
            assert(coding == stereo_coding(l@, r@));
        }
    }
    let mut body = body;
    let ghost sub_len = body.bits().len();
    proof {
        lemma_bytes_bits_len(body.bytes@);
        lemma_nat_bits_len(body.acc as nat, body.n as nat);
        assert(body.n as int == sub_len % 8);
    }
    body.align();
    proof {
        assert(body.bits() =~= pad_to_byte(coding.1));
    }
    (assign, body)
}

/// Encodes one frame of `frames` interleaved samples per channel.
pub fn encode_frame(block: &[i16], ch: usize, frames: usize, rate: u32, n: u64) -> (r: Vec<u8>)
    requires
        1 <= ch,
        1 <= frames <= BLOCK,
        block.len() == frames * ch,
        n < 0x10_0000_0000,
    ensures
        r@ == frame_spec(block@, ch as nat, frames as nat, rate, n),
        r.len() <= 0xFFFF,
{
    let ghost coding = channel_coding(block@, ch as nat, frames as nat);
    let (assign, body) = code_channels(block, ch, frames);
    proof {
        lemma_aligned_bytes(&body);
    }
    let h = frame_header(frames, rate, assign, n);
    proof {
        lemma_aligned_bytes(&h);
    }
    let mut frame = h.bytes;
    let c8 = crc8(frame.as_slice());
    frame.push(c8);
    let mut i: usize = 0;
    let ghost f0 = frame@;
    proof {
        lemma_bytes_bits_len(body.bytes@);
        lemma_bytes_bits_len(frame@);
        lemma_nat_bits_len(0x7FFC, 15);
    }
    while i < body.bytes.len()
        invariant
            i <= body.bytes.len(),
            frame@ == f0 + body.bytes@.subrange(0, i as int),
        decreases body.bytes.len() - i,
    {
        frame.push(body.bytes[i]);
        proof {
            assert(frame@ =~= f0 + body.bytes@.subrange(0, i + 1));
        }
        i = i + 1;
    }
    assert(body.bytes@.subrange(0, i as int) =~= body.bytes@);
    let c16 = crc16(frame.as_slice());
    frame.push((c16 >> 8u16) as u8);
    frame.push((c16 & 0xFF) as u8);
    proof {
        assert(frame@ =~= frame_spec(block@, ch as nat, frames as nat, rate, n));
        lemma_utf8_width_bound(n as nat, 2);
        lemma_bytes_bits_len(frame_number_bytes(n));
        lemma_nat_bits_len(0, 1);
        lemma_nat_bits_len(block_size_code(frames as nat), 4);
        lemma_nat_bits_len(sample_rate_code(rate), 4);
        lemma_nat_bits_len(assign as nat, 4);
        lemma_nat_bits_len(0b100, 3);
        lemma_nat_bits_len((frames - 1) as nat, 16);
        assert(frame_header_bits(frames as nat, rate, assign as nat, n).len() <= 104);
        lemma_bytes_bits_len(body.bytes@);
        lemma_bytes_bits_len(h.bytes@);
    }
    frame
}


// ---------- stream header ----------

/// STREAMINFO: block sizes, frame sizes (0 = unknown), rate, channels, 16 bits per sample,
/// total samples and an all-zero MD5 ("not computed").
pub open spec fn streaminfo_bits(min_frame: u32, max_frame: u32, f: PcmFormat, total: u64) -> Seq<bool> {
    nat_bits(4096, 16) + nat_bits(4096, 16)
        + nat_bits(if min_frame == u32::MAX { 0 } else { min_frame as nat }, 24)
        + nat_bits(max_frame as nat, 24) + nat_bits(f.sample_rate as nat, 20)
        + nat_bits((f.channels - 1) as nat, 3) + nat_bits(15, 5) + nat_bits(total as nat, 36)
}

pub open spec fn streaminfo_spec(min_frame: u32, max_frame: u32, f: PcmFormat, total: u64) -> Seq<u8> {
    bits_to_bytes(streaminfo_bits(min_frame, max_frame, f, total)) + zero_bytes(16)
}

/// Formats the encoder accepts: 1 to 8 channels and a rate that fits in 20 bits.
pub open spec fn format_ok(f: PcmFormat) -> bool {
    1 <= f.channels <= 8 && f.sample_rate < 0x10_0000
}

/// Metadata block: type (with the "last block" flag) and 24-bit length, then the body.
pub open spec fn metadata_block_spec(kind: u8, last: bool, body: Seq<u8>) -> Seq<u8> {
    seq![if last { kind | 0x80u8 } else { kind }] + be24(body.len() % 0x100_0000) + body
}

pub fn metadata_block(kind: u8, last: bool, body: &[u8]) -> (b: Vec<u8>)
    ensures
        b@ == metadata_block_spec(kind, last, body@),
{
    let mut b: Vec<u8> = Vec::new();
    b.push(if last { kind | 0x80 } else { kind });
    let len24 = (body.len() % 0x100_0000) as u32;
    push_be24(&mut b, len24);
    extend(&mut b, body);
    assert(b@ =~= metadata_block_spec(kind, last, body@));
    b
}

pub fn streaminfo(min_frame: u32, max_frame: u32, f: PcmFormat, total: u64) -> (b: Vec<u8>)
    requires
        format_ok(f),
        min_frame == u32::MAX || min_frame < 0x100_0000,
        max_frame < 0x100_0000,
        total < 0x10_0000_0000,
    ensures
        b@ == streaminfo_spec(min_frame, max_frame, f, total),
        b.len() == 34,
{
    let mut b = Bits::new();
    proof { lemma2_to64(); lemma2_to64_rest(); }
    b.put(BLOCK as u64, 16);
    b.put(BLOCK as u64, 16);
    b.put(if min_frame == u32::MAX { 0 } else { min_frame as u64 }, 24);
    b.put(max_frame as u64, 24);
    b.put(f.sample_rate as u64, 20);
    b.put(f.channels as u64 - 1, 3);
    b.put(15, 5); // 16 bits per sample
    b.put(total, 36);
    proof {
        assert(b.bits() =~= streaminfo_bits(min_frame, max_frame, f, total));
        lemma_nat_bits_len(4096, 16);
        lemma_nat_bits_len(if min_frame == u32::MAX { 0 } else { min_frame as nat }, 24);
        lemma_nat_bits_len(max_frame as nat, 24);
        lemma_nat_bits_len(f.sample_rate as nat, 20);
        lemma_nat_bits_len((f.channels - 1) as nat, 3);
        lemma_nat_bits_len(15, 5);
        lemma_nat_bits_len(total as nat, 36);
        lemma_bytes_bits_len(b.bytes@);
        lemma_nat_bits_len(b.acc as nat, b.n as nat);
        lemma_aligned_bytes(&b);
    }
    let mut out = b.bytes;
    push_zeros(&mut out, 16);
    out
}

/// Bytes of a text, UTF-8.
pub open spec fn utf8(s: Seq<char>) -> Seq<u8> {
    vstd::utf8::encode_utf8(s)
}

/// One Vorbis comment: length (32-bit little-endian) and `KEY=value`.
pub open spec fn comment_spec(key: Seq<char>, value: Seq<char>) -> Seq<u8> {
    let c = utf8(key) + utf8(value);
    le32(c.len() % 0x1_0000_0000) + c
}

/// Vorbis comment block body: vendor "resonda", then TITLE, ARTIST, ALBUM and DATE.
pub open spec fn vorbis_spec(t: Tags) -> Seq<u8> {
    let count: nat = 2 + (if t.album is Some { 1nat } else { 0 }) + (if t.year is Some { 1nat } else { 0 });
    le32(7) + utf8("resonda"@) + le32(count) + comment_spec("TITLE="@, t.title@)
        + comment_spec("ARTIST="@, t.artist@)
        + (if let Some(a) = t.album { comment_spec("ALBUM="@, a@) } else { Seq::empty() })
        + (if let Some(y) = t.year { comment_spec("DATE="@, y@) } else { Seq::empty() })
}

/// Picture block body: front cover, MIME type, no description, no dimensions, image data.
pub open spec fn picture_spec(c: Seq<u8>) -> Seq<u8> {
    let mime = if starts_png(c) { utf8("image/png"@) } else { utf8("image/jpeg"@) };
    be32(3) + be32(mime.len()) + mime + be32(0) + zero_bytes(16) + be32(c.len() % 0x1_0000_0000) + c
}

/// The start of a FLAC file: "fLaC", STREAMINFO and, with tags, Vorbis comments and the cover.
pub open spec fn head_spec(f: PcmFormat, tags: Option<Tags>) -> Seq<u8> {
    let si = streaminfo_spec(u32::MAX, 0, f, 0);
    match tags {
        None => seq![0x66u8, 0x4C, 0x61, 0x43] + metadata_block_spec(0, true, si),
        Some(t) => seq![0x66u8, 0x4C, 0x61, 0x43] + metadata_block_spec(0, false, si)
            + metadata_block_spec(4, t.cover is None, vorbis_spec(t))
            + (if let Some(c) = t.cover { metadata_block_spec(6, true, picture_spec(c@)) } else { Seq::empty() }),
    }
}

fn push_comment(v: &mut Vec<u8>, key: &str, value: &String)
    ensures
        final(v)@ == old(v)@ + comment_spec(key@, value@),
{
    let mut c: Vec<u8> = Vec::new();
    extend(&mut c, key.as_bytes());
    extend(&mut c, value.as_str().as_bytes());
    push_le32(v, (c.len() as u64 % 0x1_0000_0000) as u32);
    extend(v, c.as_slice());
    assert(v@ =~= old(v)@ + comment_spec(key@, value@));
}

fn vorbis_comments(t: &Tags) -> (v: Vec<u8>)
    ensures
        v@ == vorbis_spec(*t),
{
    let mut v: Vec<u8> = Vec::new();
    push_le32(&mut v, 7);
    extend(&mut v, "resonda".as_bytes());
    let count: u32 = 2 + (if t.album.is_some() { 1 } else { 0 }) + (if t.year.is_some() { 1 } else { 0 });
    push_le32(&mut v, count);
    push_comment(&mut v, "TITLE=", &t.title);
    push_comment(&mut v, "ARTIST=", &t.artist);
    let ghost mid = v@;
    if let Some(a) = &t.album {
        push_comment(&mut v, "ALBUM=", a);
    }
    let ghost mid2 = v@;
    if let Some(y) = &t.year {
        push_comment(&mut v, "DATE=", y);
    }
    proof {
        let ea = if let Some(a) = &t.album { comment_spec("ALBUM="@, a@) } else { Seq::empty() };
        let ey = if let Some(y) = &t.year { comment_spec("DATE="@, y@) } else { Seq::empty() };
        assert(mid2 =~= mid + ea);
        assert(v@ =~= mid2 + ey);
        assert(v@ =~= vorbis_spec(*t));
    }
    v
}

fn picture(c: &Vec<u8>) -> (p: Vec<u8>)
    ensures
        p@ == picture_spec(c@),
{
    let png = is_png(c);
    let mime: &str = if png { "image/png" } else { "image/jpeg" };
    let mut p: Vec<u8> = Vec::new();
    push_be32(&mut p, 3); // front cover
    let mb = mime.as_bytes();
    proof {
        reveal_strlit("image/png");
        reveal_strlit("image/jpeg");
        assert(vstd::utf8::is_ascii_chars(mime@));
        vstd::utf8::is_ascii_chars_encode_utf8(mime@);
    }
    push_be32(&mut p, mb.len() as u32);
    extend(&mut p, mb);
    push_be32(&mut p, 0); // no description
    push_zeros(&mut p, 16); // width, height, depth and colours: not given
    push_be32(&mut p, (c.len() as u64 % 0x1_0000_0000) as u32);
    extend(&mut p, c.as_slice());
    assert(p@ =~= picture_spec(c@));
    p
}


// ---------- the writer ----------

/// Errors of the FLAC writer.
#[derive(Debug, Clone, Copy, PartialEq, Eq)]
pub enum FlacError {
    /// `write` or `finish` before `start`.
    NotStarted,
}

impl FlacError {
    pub fn message(&self) -> (s: String)
        ensures
            s@ == "FLAC sin iniciar"@,
    {
        String::from_str("FLAC sin iniciar")
    }
}

/// FLAC encoder state: the output is handed back as bytes to append to the file, and at the
/// end a STREAMINFO block to write over the one at byte 8.
pub struct FlacWriter {
    pub tags: Option<Tags>,
    pub format: Option<PcmFormat>,
    /// Samples waiting for a whole block.
    pub pending: Vec<i16>,
    pub frame_no: u64,
    /// Samples per channel encoded so far.
    pub total: u64,
    pub min_frame: u32,
    pub max_frame: u32,
}

/// Samples of block `b` of an interleaved stream.
pub open spec fn block_of(stream: Seq<i16>, ch: nat, b: nat) -> Seq<i16> {
    stream.subrange((b * (4096 * ch)) as int, ((b + 1) * (4096 * ch)) as int)
}

pub open spec fn block_frame(stream: Seq<i16>, f: PcmFormat, n0: nat, b: nat) -> Seq<u8> {
    frame_spec(block_of(stream, f.channels as nat, b), f.channels as nat, 4096, f.sample_rate, (n0 + b) as u64)
}

/// The frames of the first `k` whole blocks of `stream`, numbered from `n0`.
pub open spec fn frames_out(stream: Seq<i16>, f: PcmFormat, n0: nat, k: nat) -> Seq<u8>
    decreases k,
{
    if k == 0 {
        Seq::empty()
    } else {
        frames_out(stream, f, n0, (k - 1) as nat) + block_frame(stream, f, n0, (k - 1) as nat)
    }
}

/// Smallest frame size after the first `k` blocks, starting from `m0`.
pub open spec fn min_after(stream: Seq<i16>, f: PcmFormat, n0: nat, k: nat, m0: nat) -> nat
    decreases k,
{
    if k == 0 {
        m0
    } else {
        let m = min_after(stream, f, n0, (k - 1) as nat, m0);
        let l = block_frame(stream, f, n0, (k - 1) as nat).len();
        if l < m { l } else { m }
    }
}

/// Largest frame size after the first `k` blocks, starting from `m0`.
pub open spec fn max_after(stream: Seq<i16>, f: PcmFormat, n0: nat, k: nat, m0: nat) -> nat
    decreases k,
{
    if k == 0 {
        m0
    } else {
        let m = max_after(stream, f, n0, (k - 1) as nat, m0);
        let l = block_frame(stream, f, n0, (k - 1) as nat).len();
        if l > m { l } else { m }
    }
}

impl FlacWriter {
    pub open spec fn wf(&self) -> bool {
        &&& self.frame_no <= self.total
        &&& self.total + self.pending@.len() < 0x10_0000_0000
        &&& self.min_frame == u32::MAX || self.min_frame < 0x1_0000
        &&& self.max_frame < 0x1_0000
        &&& match self.format {
            None => self.pending@.len() == 0,
            Some(f) => format_ok(f) && self.pending@.len() < 4096 * f.channels,
        }
    }

    /// A writer that has not started yet.
    pub fn new(tags: Option<Tags>) -> (w: FlacWriter)
        ensures
            w.wf(),
            w.tags == tags,
            w.format is None,
            w.pending@ == Seq::<i16>::empty(),
            w.frame_no == 0,
            w.total == 0,
            w.min_frame == u32::MAX,
            w.max_frame == 0,
    {
        FlacWriter { tags, format: None, pending: Vec::new(), frame_no: 0, total: 0, min_frame: u32::MAX, max_frame: 0 }
    }

    /// Starts the stream; returns the file header ("fLaC", STREAMINFO and the tags).
    pub fn header(&mut self, f: PcmFormat) -> (head: Vec<u8>)
        requires
            old(self).wf(),
            old(self).format is None,
            old(self).frame_no == 0,
            old(self).total == 0,
            old(self).min_frame == u32::MAX,
            old(self).max_frame == 0,
            format_ok(f),
        ensures
            final(self).wf(),
            final(self).format == Some(f),
            final(self).tags == old(self).tags,
            final(self).pending@ == old(self).pending@,
            final(self).frame_no == 0,
            final(self).total == 0,
            final(self).min_frame == u32::MAX,
            final(self).max_frame == 0,
            head@ == head_spec(f, old(self).tags),
    {
        self.format = Some(f);
        let mut head: Vec<u8> = Vec::new();
        head.push(0x66);
        head.push(0x4C);
        head.push(0x61);
        head.push(0x43); // "fLaC"
        let info = streaminfo(self.min_frame, self.max_frame, f, self.total);
        let si = metadata_block(0, self.tags.is_none(), info.as_slice());
        extend(&mut head, si.as_slice());
        let ghost h0 = head@;
        match &self.tags {
            None => {}
            Some(t) => {
                let v = vorbis_comments(t);
                let has_cover = t.cover.is_some();
                let vb = metadata_block(4, !has_cover, v.as_slice());
                extend(&mut head, vb.as_slice());
                let ghost h1 = head@;
                if let Some(cover) = &t.cover {
                    let p = picture(cover);
                    let pb = metadata_block(6, true, p.as_slice());
                    extend(&mut head, pb.as_slice());
                }
                proof {
                    let ep = if let Some(c) = &t.cover { metadata_block_spec(6, true, picture_spec(c@)) } else { Seq::empty() };
                    assert(head@ =~= h1 + ep);
                }
            }
        }
        assert(head@ =~= head_spec(f, self.tags));
        head
    }

    /// Adds samples; returns the frames of every block that is now complete.
    pub fn encode(&mut self, samples: &[i16]) -> (r: Result<Vec<u8>, FlacError>)
        requires
            old(self).wf(),
            old(self).total + old(self).pending@.len() + samples@.len() < 0x10_0000_0000,
        ensures
            final(self).wf(),
            final(self).tags == old(self).tags,
            final(self).format == old(self).format,
            match old(self).format {
                None => r == Err::<Vec<u8>, FlacError>(FlacError::NotStarted) && final(self).pending@ == old(self).pending@
                    && final(self).frame_no == old(self).frame_no && final(self).total == old(self).total
                    && final(self).min_frame == old(self).min_frame && final(self).max_frame == old(self).max_frame,
                Some(f) => {
                    let stream = old(self).pending@ + samples@;
                    let ch = f.channels as nat;
                    let k = stream.len() / (4096 * ch);
                    &&& r matches Ok(out) && out@ == frames_out(stream, f, old(self).frame_no as nat, k)
                    &&& final(self).pending@ == stream.subrange((k * (4096 * ch)) as int, stream.len() as int)
                    &&& final(self).frame_no == old(self).frame_no + k
                    &&& final(self).total == old(self).total + 4096 * k
                    &&& final(self).min_frame as nat == min_after(stream, f, old(self).frame_no as nat, k, old(self).min_frame as nat)
                    &&& final(self).max_frame as nat == max_after(stream, f, old(self).frame_no as nat, k, old(self).max_frame as nat)
                },
            },
    {
        let f = match self.format {
            None => return Err(FlacError::NotStarted),
            Some(f) => f,
        };
        let ch = f.channels as usize;
        let mut stream: Vec<i16> = Vec::new();
        extend_i16(&mut stream, self.pending.as_slice());
        extend_i16(&mut stream, samples);
        let ghost st = stream@;
        let ghost n0 = self.frame_no as nat;
        let ghost m0 = self.min_frame as nat;
        let ghost x0 = self.max_frame as nat;
        let ghost t0 = self.total;
        let bsz: usize = BLOCK * ch;
        let k = stream.len() / bsz;
        let mut out: Vec<u8> = Vec::new();
        let mut b: usize = 0;
        proof {
            assert(st.len() == old(self).pending@.len() + samples@.len());
        }
        while b < k
            invariant
                st == stream@,
                st.len() <= usize::MAX,
                self.tags == old(self).tags,
                self.format == Some(f),
                self.pending@ == old(self).pending@,
                ch == f.channels,
                1 <= ch <= 8,
                format_ok(f),
                bsz == 4096 * ch,
                k == st.len() / (bsz as nat),
                b <= k,
                t0 + st.len() < 0x10_0000_0000,
                self.frame_no == n0 + b,
                self.total == t0 + 4096 * b,
                n0 <= t0,
                out@ == frames_out(st, f, n0, b as nat),
                self.min_frame as nat == min_after(st, f, n0, b as nat, m0),
                self.max_frame as nat == max_after(st, f, n0, b as nat, x0),
                self.min_frame == u32::MAX || self.min_frame < 0x1_0000,
                self.max_frame < 0x1_0000,
            decreases k - b,
        {
            proof {
                assert((b + 1) * bsz <= k * bsz) by (nonlinear_arith) requires b + 1 <= k;
                assert(b * bsz <= (b + 1) * bsz) by (nonlinear_arith);
                assert(k * bsz <= st.len()) by (nonlinear_arith) requires k == st.len() / (bsz as nat), bsz > 0;
                assert((b + 1) * bsz == b * bsz + bsz) by (nonlinear_arith);
                assert(4096 * (b + 1) <= st.len()) by (nonlinear_arith)
                    requires (b + 1) * bsz <= st.len(), bsz == 4096 * ch, ch >= 1;
            }
            let frame = encode_frame(&stream[b * bsz..(b + 1) * bsz], ch, BLOCK, f.sample_rate, self.frame_no);
            proof {
                assert(stream@.subrange((b * bsz) as int, ((b + 1) * bsz) as int) == block_of(st, ch as nat, b as nat));
            }
            let len = frame.len() as u32;
            if len < self.min_frame {
                self.min_frame = len;
            }
            if len > self.max_frame {
                self.max_frame = len;
            }
            extend(&mut out, frame.as_slice());
            self.frame_no = self.frame_no + 1;
            self.total = self.total + BLOCK as u64;
            b = b + 1;
        }
        let mut rest: Vec<i16> = Vec::new();
        proof {
            assert(k * bsz <= st.len()) by (nonlinear_arith) requires k == st.len() / (bsz as nat), bsz > 0;
            assert(st.len() - k * bsz < bsz) by (nonlinear_arith) requires k == st.len() / (bsz as nat), bsz > 0;
            assert(4096 * k <= k * bsz) by (nonlinear_arith) requires bsz == 4096 * ch, ch >= 1;
        }
        extend_i16(&mut rest, &stream[k * bsz..stream.len()]);
        self.pending = rest;
        assert(Seq::<i16>::empty() + st.subrange((k * bsz) as int, st.len() as int) =~= self.pending@);
        Ok(out)
    }

    /// Encodes the last, shorter block; returns its frame and the final STREAMINFO (to be
    /// written at byte 8 of the file, over the provisional one).
    pub fn close(&mut self) -> (r: Result<(Vec<u8>, Vec<u8>), FlacError>)
        requires
            old(self).wf(),
        ensures
            final(self).wf(),
            final(self).tags == old(self).tags,
            final(self).format == old(self).format,
            match old(self).format {
                None => r == Err::<(Vec<u8>, Vec<u8>), FlacError>(FlacError::NotStarted),
                Some(f) => {
                    let ch = f.channels as nat;
                    let rest = old(self).pending@.len() / ch;
                    let last = frame_spec(old(self).pending@.subrange(0, (rest * ch) as int), ch, rest,
                        f.sample_rate, old(self).frame_no);
                    &&& rest > 0 ==> {
                        &&& final(self).frame_no == old(self).frame_no + 1
                        &&& final(self).total == old(self).total + rest
                        &&& final(self).min_frame as nat == (if last.len() < old(self).min_frame { last.len() } else { old(self).min_frame as nat })
                        &&& final(self).max_frame as nat == (if last.len() > old(self).max_frame { last.len() } else { old(self).max_frame as nat })
                        &&& final(self).pending@ == old(self).pending@.subrange((rest * ch) as int, old(self).pending@.len() as int)
                    }
                    &&& rest == 0 ==> final(self).frame_no == old(self).frame_no && final(self).total == old(self).total
                        && final(self).min_frame == old(self).min_frame && final(self).max_frame == old(self).max_frame
                        && final(self).pending@ == old(self).pending@
                    &&& r matches Ok((tail, info)) && tail@ == (if rest > 0 { last } else { Seq::empty() })
                        && info@ == streaminfo_spec(final(self).min_frame, final(self).max_frame, f, final(self).total)
                },
            },
    {
        let f = match self.format {
            None => return Err(FlacError::NotStarted),
            Some(f) => f,
        };
        let ch = f.channels as usize;
        let rest = self.pending.len() / ch;
        let mut tail: Vec<u8> = Vec::new();
        if rest > 0 {
            proof {
                assert(rest * ch <= self.pending.len()) by (nonlinear_arith)
                    requires rest == self.pending.len() / ch, ch > 0;
                assert(rest < 4096) by (nonlinear_arith)
                    requires rest == self.pending.len() / ch, ch > 0, self.pending.len() < 4096 * ch;
                assert(self.pending.len() - rest * ch < ch) by (nonlinear_arith)
                    requires rest == self.pending.len() / ch, ch > 0;
                assert(rest <= rest * ch) by (nonlinear_arith) requires ch >= 1;
            }
            tail = encode_frame(&self.pending[0..rest * ch], ch, rest, f.sample_rate, self.frame_no);
            let len = tail.len() as u32;
            if len < self.min_frame {
                self.min_frame = len;
            }
            if len > self.max_frame {
                self.max_frame = len;
            }
            let mut left: Vec<i16> = Vec::new();
            extend_i16(&mut left, &self.pending[rest * ch..self.pending.len()]);
            self.pending = left;
            self.frame_no = self.frame_no + 1;
            self.total = self.total + rest as u64;
            assert(Seq::<i16>::empty() + old(self).pending@.subrange((rest * ch) as int, old(self).pending@.len() as int) =~= self.pending@);
        }
        let info = streaminfo(self.min_frame, self.max_frame, f, self.total);
        Ok((tail, info))
    }
}

fn extend_i16(v: &mut Vec<i16>, s: &[i16])
    ensures
        final(v)@ == old(v)@ + s@,
{
    let mut i: usize = 0;
    while i < s.len()
        invariant
            i <= s.len(),
            v@ == old(v)@ + s@.subrange(0, i as int),
        decreases s.len() - i,
    {
        v.push(s[i]);
        assert(v@ =~= old(v)@ + s@.subrange(0, i + 1));
        i = i + 1;
    }
    assert(s@.subrange(0, i as int) =~= s@);
}

impl PcmSink for FlacWriter {
    open spec fn ready(&self) -> bool {
        self.wf()
    }

    /// The stream header and the tag blocks; a second start, or a format FLAC cannot
    /// describe here (1 to 8 channels, rates under 2^20), is refused.
    fn start(&mut self, format: PcmFormat) -> (r: Result<Vec<u8>, String>)
        ensures
            ({
                let fresh = old(self).format is None && old(self).frame_no == 0 && old(self).total == 0
                    && old(self).min_frame == u32::MAX && old(self).max_frame == 0;
                if !fresh || !format_ok(format) {
                    r is Err && *final(self) == *old(self)
                } else {
                    &&& r matches Ok(h) && h@ == head_spec(format, old(self).tags)
                    &&& final(self).format == Some(format)
                    &&& final(self).tags == old(self).tags
                    &&& final(self).pending@ == old(self).pending@
                    &&& final(self).frame_no == 0 && final(self).total == 0
                    &&& final(self).min_frame == u32::MAX && final(self).max_frame == 0
                }
            }),
    {
        if self.format.is_some() || self.frame_no != 0 || self.total != 0 || self.min_frame != 0xFFFF_FFFF || self.max_frame != 0 {
            return Err(String::from_str("FLAC ya iniciado"));
        }
        if !(1 <= format.channels && format.channels <= 8 && format.sample_rate < 0x10_0000) {
            return Err(String::from_str("Formato PCM no soportado por FLAC"));
        }
        Ok(FlacWriter::header(self, format))
    }

    /// The frames of the whole blocks ready; more samples than STREAMINFO can count are refused.
    fn write(&mut self, samples: &[i16]) -> (r: Result<Vec<u8>, String>)
        ensures
            old(self).total + old(self).pending@.len() + samples@.len() >= 0x10_0000_0000 ==> r is Err
                && *final(self) == *old(self),
            old(self).total + old(self).pending@.len() + samples@.len() < 0x10_0000_0000 ==> {
                &&& final(self).tags == old(self).tags
                &&& final(self).format == old(self).format
                &&& match old(self).format {
                    None => r is Err && final(self).pending@ == old(self).pending@
                        && final(self).frame_no == old(self).frame_no && final(self).total == old(self).total,
                    Some(f) => {
                        let stream = old(self).pending@ + samples@;
                        let ch = f.channels as nat;
                        let k = stream.len() / (4096 * ch);
                        &&& r matches Ok(out) && out@ == frames_out(stream, f, old(self).frame_no as nat, k)
                        &&& final(self).pending@ == stream.subrange((k * (4096 * ch)) as int, stream.len() as int)
                        &&& final(self).frame_no == old(self).frame_no + k
                        &&& final(self).total == old(self).total + 4096 * k
                        &&& final(self).min_frame as nat == min_after(stream, f, old(self).frame_no as nat, k, old(self).min_frame as nat)
                        &&& final(self).max_frame as nat == max_after(stream, f, old(self).frame_no as nat, k, old(self).max_frame as nat)
                    },
                }
            },
    {
        if self.total as u128 + self.pending.len() as u128 + samples.len() as u128 >= 0x10_0000_0000 {
            return Err(String::from_str("Audio demasiado largo para FLAC"));
        }
        match FlacWriter::encode(self, samples) {
            Ok(v) => Ok(v),
            Err(e) => Err(e.message()),
        }
    }

    /// The last frame, and STREAMINFO written over its place right after "fLaC" and the
    /// block header.
    fn finish(&mut self) -> (r: Result<SinkEnd, String>)
        ensures
            final(self).tags == old(self).tags,
            final(self).format == old(self).format,
            match old(self).format {
                None => r is Err,
                Some(f) => {
                    let ch = f.channels as nat;
                    let rest = old(self).pending@.len() / ch;
                    let last = frame_spec(old(self).pending@.subrange(0, (rest * ch) as int), ch, rest,
                        f.sample_rate, old(self).frame_no);
                    &&& rest > 0 ==> final(self).frame_no == old(self).frame_no + 1 && final(self).total == old(self).total + rest
                    &&& rest == 0 ==> final(self).frame_no == old(self).frame_no && final(self).total == old(self).total
                    &&& r matches Ok(end) && end.tail@ == (if rest > 0 { last } else { Seq::empty() })
                        && end.patches@.len() == 1 && end.patches@[0].0 == 8
                        && end.patches@[0].1@ == streaminfo_spec(final(self).min_frame, final(self).max_frame, f, final(self).total)
                },
            },
    {
        match FlacWriter::close(self) {
            Ok((tail, info)) => {
                let mut patches: Vec<(u64, Vec<u8>)> = Vec::new();
                patches.push((8, info));
                Ok(SinkEnd { tail, patches })
            }
            Err(e) => Err(e.message()),
        }
    }
}


// ---------- decoding a subframe ----------

/// The unsigned number in the `k` bits at `pos`.
pub open spec fn read_nat(s: Seq<bool>, pos: int, k: nat) -> nat {
    bits_value(s.subrange(pos, pos + k))
}

/// A `k`-bit two's-complement field read back as a number.
pub open spec fn sign_extend(v: nat, k: nat) -> int {
    if k > 0 && v >= pow2((k - 1) as nat) { v - pow2(k) } else { v as int }
}

/// `count` fields of `k` bits from `pos` on, each read as a signed number.
pub open spec fn read_signed_run(s: Seq<bool>, pos: int, k: nat, count: nat) -> Seq<int>
    decreases count,
{
    if count == 0 {
        Seq::empty()
    } else {
        read_signed_run(s, pos, k, (count - 1) as nat).push(sign_extend(read_nat(s, pos + (count - 1) * k, k), k))
    }
}

/// Every sample fits in a `bps`-bit two's-complement field.
pub open spec fn fits_bits(x: Seq<i32>, bps: nat) -> bool {
    forall|i: int| 0 <= i < x.len() ==> -(pow2((bps - 1) as nat) as int) <= #[trigger] x[i] < pow2((bps - 1) as nat)
}

/// The residual values as integers.
pub open spec fn ints64(r: Seq<i64>) -> Seq<int> {
    Seq::new(r.len(), |i: int| r[i] as int)
}

proof fn lemma_read_nat(pre: Seq<bool>, v: nat, k: nat, rest: Seq<bool>)
    requires
        v < pow2(k),
    ensures
        read_nat(pre + nat_bits(v, k) + rest, pre.len() as int, k) == v,
{
    lemma_nat_bits_len(v, k);
    let s = pre + nat_bits(v, k) + rest;
    assert(s.subrange(pre.len() as int, pre.len() + k as int) =~= nat_bits(v, k));
    lemma_bits_value_nat_bits(v, k);
}

proof fn lemma_sign_extend(v: int, k: nat)
    requires
        k >= 1,
        -(pow2((k - 1) as nat) as int) <= v < pow2((k - 1) as nat),
    ensures
        sign_extend((v % (pow2(k) as int)) as nat, k) == v,
        0 <= v % (pow2(k) as int) < pow2(k),
{
    vstd::arithmetic::power2::lemma_pow2_unfold(k);
    vstd::arithmetic::power2::lemma_pow2_pos((k - 1) as nat);
    let m = pow2(k) as int;
    if v >= 0 {
        vstd::arithmetic::div_mod::lemma_small_mod(v as nat, m as nat);
    } else {
        vstd::arithmetic::div_mod::lemma_mod_add_multiples_vanish(v, m);
        vstd::arithmetic::div_mod::lemma_small_mod((m + v) as nat, m as nat);
    }
}

proof fn lemma_read_signed(pre: Seq<bool>, v: int, k: nat, rest: Seq<bool>)
    requires
        k >= 1,
        -(pow2((k - 1) as nat) as int) <= v < pow2((k - 1) as nat),
    ensures
        sign_extend(read_nat(pre + signed_bits(v, k) + rest, pre.len() as int, k), k) == v,
        signed_bits(v, k).len() == k,
{
    lemma_sign_extend(v, k);
    lemma_nat_bits_len((v % (pow2(k) as int)) as nat, k);
    lemma_read_nat(pre, (v % (pow2(k) as int)) as nat, k, rest);
}

proof fn lemma_read_signed_run(pre: Seq<bool>, x: Seq<i32>, k: nat, rest: Seq<bool>)
    requires
        k >= 1,
        fits_bits(x, k),
    ensures
        read_signed_run(pre + signed_run(x, k) + rest, pre.len() as int, k, x.len()) == samples_int(x),
    decreases x.len(),
{
    if x.len() == 0 {
        assert(read_signed_run(pre + signed_run(x, k) + rest, pre.len() as int, k, 0) =~= samples_int(x));
    } else {
        let x0 = x.drop_last();
        let v = x.last() as int;
        assert(fits_bits(x0, k)) by {
            assert forall|i: int| 0 <= i < x0.len() implies -(pow2((k - 1) as nat) as int) <= #[trigger] x0[i] < pow2((k - 1) as nat) by {
                assert(x0[i] == x[i]);
            }
        }
        assert(-(pow2((k - 1) as nat) as int) <= x[x.len() - 1] < pow2((k - 1) as nat));
        let s = pre + signed_run(x, k) + rest;
        let rest1 = signed_bits(v, k) + rest;
        assert(s =~= pre + signed_run(x0, k) + rest1);
        lemma_read_signed_run(pre, x0, k, rest1);
        lemma_signed_run_len(x0, k);
        let pre2 = pre + signed_run(x0, k);
        assert(s =~= pre2 + signed_bits(v, k) + rest);
        lemma_read_signed(pre2, v, k, rest);
        assert(pre.len() + (x.len() - 1) * k == pre2.len()) by (nonlinear_arith)
            requires pre2.len() == pre.len() + x0.len() * k, x0.len() == x.len() - 1;
        assert(read_signed_run(s, pre.len() as int, k, x.len()) =~= samples_int(x0).push(v));
        assert(samples_int(x0).push(v) =~= samples_int(x));
    }
}

/// `count` Rice code words from `pos` on, with parameter `k`: the values and where they end.
pub open spec fn read_rice_run(s: Seq<bool>, pos: int, k: nat, count: nat) -> (Seq<int>, int)
    decreases count,
{
    if count == 0 {
        (Seq::empty(), pos)
    } else {
        let prev = read_rice_run(s, pos, k, (count - 1) as nat);
        let w = rice_decode(s.subrange(prev.1, s.len() as int), k);
        (prev.0.push(w.0), prev.1 + w.1)
    }
}

/// The first `m` partitions of a fixed subframe of `n` samples: each a 4-bit parameter and
/// its Rice code words; the residuals and where they end.
pub open spec fn read_partitions(s: Seq<bool>, pos: int, n: nat, order: nat, po: nat, m: nat) -> (Seq<int>, int)
    decreases m,
{
    if m == 0 {
        (Seq::empty(), pos)
    } else {
        let prev = read_partitions(s, pos, n, order, po, (m - 1) as nat);
        let k = read_nat(s, prev.1, 4);
        let count = (part_end(n, order, po, (m - 1) as nat) - part_start(n, order, po, (m - 1) as nat)) as nat;
        let run = read_rice_run(s, prev.1 + 4, k, count);
        (prev.0 + run.0, run.1)
    }
}

proof fn lemma_rice_bits_len(v: int, k: nat)
    ensures
        rice_bits(v, k).len() == zigzag(v) / pow2(k) + 1 + k,
{
    let z = zigzag(v);
    lemma_pow2_pos(k);
    vstd::arithmetic::div_mod::lemma_mod_pos_bound(z as int, pow2(k) as int);
    lemma_nat_bits_len(z % pow2(k), k);
    let q = z / pow2(k);
    assert(zeros(q).push(true).len() == q + 1);
}

proof fn lemma_read_rice_run(pre: Seq<bool>, r: Seq<i64>, k: nat, rest: Seq<bool>)
    ensures
        read_rice_run(pre + rice_run(r, k) + rest, pre.len() as int, k, r.len())
            == (ints64(r), (pre.len() + rice_run(r, k).len()) as int),
    decreases r.len(),
{
    let s = pre + rice_run(r, k) + rest;
    if r.len() == 0 {
        assert(ints64(r) =~= Seq::<int>::empty());
    } else {
        let r0 = r.drop_last();
        let v = r.last() as int;
        let rest1 = rice_bits(v, k) + rest;
        assert(s =~= pre + rice_run(r0, k) + rest1);
        lemma_read_rice_run(pre, r0, k, rest1);
        let p = pre.len() + rice_run(r0, k).len();
        assert(s.subrange(p as int, s.len() as int) =~= rice_bits(v, k) + rest);
        lemma_rice_roundtrip(v, k, rest);
        lemma_rice_bits_len(v, k);
        assert(ints64(r0).push(v) =~= ints64(r));
    }
}

proof fn lemma_read_partitions(pre: Seq<bool>, res: Seq<i64>, n: nat, order: nat, po: nat, ks: Seq<u32>,
    rest: Seq<bool>, m: nat)
    requires
        po_fits(n, order, po),
        res.len() + order == n,
        ks.len() == pow2(po),
        forall|i: int| 0 <= i < ks.len() ==> #[trigger] ks[i] < 16,
        m <= pow2(po),
    ensures
        read_partitions(pre + partitions_bits(res, n, order, po, ks, m) + rest, pre.len() as int, n, order, po, m)
            == (ints64(res.subrange(0, if m == 0 { 0 } else { part_end(n, order, po, (m - 1) as nat) })),
                (pre.len() + partitions_bits(res, n, order, po, ks, m).len()) as int),
    decreases m,
{
    let s = pre + partitions_bits(res, n, order, po, ks, m) + rest;
    if m == 0 {
        assert(ints64(res.subrange(0, 0)) =~= Seq::<int>::empty());
    } else {
        let p = (m - 1) as nat;
        let k = ks[p as int] as nat;
        let sl = part_slice(res, n, order, po, p);
        let pb = partitions_bits(res, n, order, po, ks, p);
        let rest1 = nat_bits(k, 4) + rice_run(sl, k) + rest;
        assert(s =~= pre + pb + rest1);
        lemma_read_partitions(pre, res, n, order, po, ks, rest1, p);
        let at = pre.len() + pb.len();
        assert(s =~= (pre + pb) + nat_bits(k, 4) + (rice_run(sl, k) + rest));
        lemma2_to64();
        lemma_read_nat(pre + pb, k, 4, rice_run(sl, k) + rest);
        lemma_nat_bits_len(k, 4);
        let pre2 = pre + pb + nat_bits(k, 4);
        assert(s =~= pre2 + rice_run(sl, k) + rest);
        lemma_read_rice_run(pre2, sl, k, rest);
        lemma_part_bounds(n, order, po, p);
        if p > 0 {
            lemma_part_bounds(n, order, po, (p - 1) as nat);
        }
        let st = part_start(n, order, po, p);
        let e = part_end(n, order, po, p);
        let before_end: int = if p == 0 { 0 } else { part_end(n, order, po, (p - 1) as nat) };
        assert(before_end == st);
        assert(sl.len() == e - st);
        assert(ints64(res.subrange(0, st)) + ints64(sl) =~= ints64(res.subrange(0, e)));
    }
}

/// A subframe of `n` samples of `bps` bits read from `pos` on: the samples and where it ends.
/// The header byte tells a constant (0), verbatim (2) or fixed-predictor (16 + 2·order)
/// subframe.
pub open spec fn read_subframe(s: Seq<bool>, pos: int, bps: nat, n: nat) -> (Seq<int>, int) {
    let h = read_nat(s, pos, 8);
    if h == 0 {
        (Seq::new(n, |i: int| sign_extend(read_nat(s, pos + 8, bps), bps)), pos + 8 + bps)
    } else if h == 2 {
        (read_signed_run(s, pos + 8, bps, n), pos + 8 + n * bps)
    } else {
        let order = (h / 2 - 8) as nat;
        let at = pos + 8 + order * bps;
        let po = read_nat(s, at + 2, 4);
        let parts = read_partitions(s, at + 6, n, order, po, pow2(po));
        (restore(read_signed_run(s, pos + 8, bps, order), parts.0, order), parts.1)
    }
}

/// The samples a subframe at the start of `s` gives back.
pub open spec fn decode_subframe(s: Seq<bool>, bps: nat, n: nat) -> Seq<int> {
    read_subframe(s, 0, bps, n).0
}

proof fn lemma_fixed_lossless(pre: Seq<bool>, x: Seq<i32>, order: nat, bps: nat, rest: Seq<bool>)
    requires
        order <= 4,
        order < x.len(),
        x.len() < 0x40_0000,
        1 <= bps <= 32,
        fits_bits(x, bps),
    ensures
        read_subframe(pre + fixed_bits(x, order, bps) + rest, pre.len() as int, bps, x.len())
            == (samples_int(x), (pre.len() + fixed_bits(x, order, bps).len()) as int),
{
    let n = x.len();
    let res = residual_i64(x, order);
    let plan = plan_choice(res, n, order);
    let po = plan.0;
    let ks = plan.1;
    assert(rice_input(res)) by {
        assert forall|i: int| 0 <= i < res.len() implies small(#[trigger] res[i] as int) by {
            lemma_residual_small(x, order, i + order);
        }
    }
    lemma2_to64();
    assert(po_fits(n, order, 0));
    let w = plan_witness(res, n, order);
    lemma_partition_plan_unique(res, n, order, w.0, w.1, po, ks);
    assert(po_valid(n, order, po));
    assert(po_fits(n, order, po));
    lemma_pow2_pos(po);
    if po < 6 { lemma_pow2_strictly_increases(po, 6); }
    assert forall|i: int| 0 <= i < ks.len() implies #[trigger] ks[i] < 16 by {
        let sl = part_slice(res, n, order, po, i as nat);
        lemma_part_bounds(n, order, po, i as nat);
        lemma_slice_rice_input(res, part_start(n, order, po, i as nat), part_end(n, order, po, i as nat));
        lemma_rice_choice_exists(sl);
    }
    let h = (8 + order) * 2;
    let warm = x.subrange(0, order as int);
    assert(fits_bits(warm, bps)) by {
        assert forall|i: int| 0 <= i < warm.len() implies -(pow2((bps - 1) as nat) as int) <= #[trigger] warm[i] < pow2((bps - 1) as nat) by {
            assert(warm[i] == x[i]);
        }
    }
    let pb = partitions_bits(res, n, order, po, ks, pow2(po));
    let fb = fixed_bits(x, order, bps);
    let s = pre + fb + rest;
    // the header byte
    assert(s =~= pre + nat_bits(h, 8) + (signed_run(warm, bps) + nat_bits(0, 2) + nat_bits(po, 4) + pb + rest));
    lemma_read_nat(pre, h, 8, signed_run(warm, bps) + nat_bits(0, 2) + nat_bits(po, 4) + pb + rest);
    assert(h != 0 && h != 2 && (h / 2 - 8) as nat == order);
    // the warm-up samples
    lemma_nat_bits_len(h, 8);
    let pre_w = pre + nat_bits(h, 8);
    assert(s =~= pre_w + signed_run(warm, bps) + (nat_bits(0, 2) + nat_bits(po, 4) + pb + rest));
    lemma_read_signed_run(pre_w, warm, bps, nat_bits(0, 2) + nat_bits(po, 4) + pb + rest);
    lemma_signed_run_len(warm, bps);
    assert(warm.len() * bps == order * bps);
    // the partition order
    lemma_nat_bits_len(0, 2);
    let pre_po = pre_w + signed_run(warm, bps) + nat_bits(0, 2);
    assert(s =~= pre_po + nat_bits(po, 4) + (pb + rest));
    lemma_read_nat(pre_po, po, 4, pb + rest);
    assert(pre_po.len() == pre.len() + 8 + order * bps + 2);
    // the partitions
    lemma_nat_bits_len(po, 4);
    let pre_pb = pre_po + nat_bits(po, 4);
    assert(s =~= pre_pb + pb + rest);
    lemma_read_partitions(pre_pb, res, n, order, po, ks, rest, pow2(po));
    assert(pre_pb.len() + pb.len() == pre.len() + fb.len());
    let last = (pow2(po) - 1) as nat;
    vstd::arithmetic::div_mod::lemma_fundamental_div_mod(n as int, pow2(po) as int);
    assert(part_end(n, order, po, last) == n - order) by (nonlinear_arith)
        requires
            part_end(n, order, po, last) == (last + 1) * part_per(n, po) - order,
            last + 1 == pow2(po),
            part_per(n, po) == n / pow2(po),
            n == pow2(po) * (n / pow2(po)) + n % pow2(po),
            n % pow2(po) == 0;
    assert(res.subrange(0, n - order) =~= res);
    assert forall|j: int| 0 <= j < res.len() implies #[trigger] ints64(res)[j] == residual_seq(x, order)[j] by {
        lemma_residual_small(x, order, j + order);
    }
    assert(ints64(res) =~= residual_seq(x, order));
    assert(samples_int(warm) =~= samples_int(x).subrange(0, order as int));
    lemma_fixed_prediction_lossless(x, order);
}

/// A subframe is read back as exactly the samples it was made from, and ends where its bits
/// end, whatever comes before or after it.
pub proof fn lemma_subframe_read(pre: Seq<bool>, x: Seq<i32>, bps: nat, rest: Seq<bool>)
    requires
        1 <= x.len() < 0x40_0000,
        1 <= bps <= 32,
        fits_bits(x, bps),
    ensures
        read_subframe(pre + subframe_bits(x, bps) + rest, pre.len() as int, bps, x.len())
            == (samples_int(x), (pre.len() + subframe_bits(x, bps).len()) as int),
{
    reveal(subframe_bits);
    lemma2_to64();
    lemma_nat_bits_len(0, 8);
    lemma_nat_bits_len(2, 8);
    if all_equal(x) {
        let sb = signed_bits(x[0] as int, bps);
        let s = pre + constant_bits(x, bps) + rest;
        assert(s =~= pre + nat_bits(0, 8) + (sb + rest));
        lemma_read_nat(pre, 0, 8, sb + rest);
        assert(s =~= (pre + nat_bits(0, 8)) + sb + rest);
        assert(-(pow2((bps - 1) as nat) as int) <= x[0] < pow2((bps - 1) as nat));
        lemma_read_signed(pre + nat_bits(0, 8), x[0] as int, bps, rest);
        assert(read_subframe(s, pre.len() as int, bps, x.len()).0 =~= samples_int(x));
    } else {
        let order = best_order_upto(x, bps, max_order(x.len()));
        lemma_best_order_upto(x, bps, max_order(x.len()));
        let f = fixed_bits(x, order, bps);
        if f.len() < verbatim_bits(x, bps).len() {
            lemma_fixed_lossless(pre, x, order, bps, rest);
        } else {
            let s = pre + verbatim_bits(x, bps) + rest;
            assert(s =~= pre + nat_bits(2, 8) + (signed_run(x, bps) + rest));
            lemma_read_nat(pre, 2, 8, signed_run(x, bps) + rest);
            assert(s =~= (pre + nat_bits(2, 8)) + signed_run(x, bps) + rest);
            lemma_read_signed_run(pre + nat_bits(2, 8), x, bps, rest);
            lemma_signed_run_len(x, bps);
            assert(x.len() * bps == x.len() * bps);
        }
    }
}

/// A subframe decodes to exactly the samples it was made from, whatever follows it.
pub proof fn lemma_subframe_lossless(x: Seq<i32>, bps: nat, rest: Seq<bool>)
    requires
        1 <= x.len() < 0x40_0000,
        1 <= bps <= 32,
        fits_bits(x, bps),
    ensures
        decode_subframe(subframe_bits(x, bps) + rest, bps, x.len()) == samples_int(x),
{
    lemma_subframe_read(Seq::empty(), x, bps, rest);
    assert(Seq::<bool>::empty() + subframe_bits(x, bps) + rest =~= subframe_bits(x, bps) + rest);
}

// ---------- decoding a frame ----------

proof fn lemma_nat_bits_of_value(w: Seq<bool>)
    ensures
        nat_bits(bits_value(w), w.len()) == w,
        bits_value(w) < pow2(w.len()),
    decreases w.len(),
{
    if w.len() == 0 {
        lemma2_to64();
        assert(nat_bits(0, 0) =~= w);
    } else {
        let w0 = w.drop_last();
        lemma_nat_bits_of_value(w0);
        vstd::arithmetic::power2::lemma_pow2_unfold(w.len());
        let v = bits_value(w);
        assert(v / 2 == bits_value(w0));
        assert((v % 2 == 1) == w.last());
        assert(nat_bits(v, w.len()) =~= w0.push(w.last()));
        assert(w0.push(w.last()) =~= w);
    }
}

proof fn lemma_bits_to_bytes_back(t: Seq<bool>)
    requires
        t.len() % 8 == 0,
    ensures
        bytes_bits(bits_to_bytes(t)) == t,
    decreases t.len(),
{
    if t.len() == 0 {
        assert(bits_to_bytes(t) =~= Seq::<u8>::empty());
        assert(bytes_bits(Seq::<u8>::empty()) =~= t);
    } else {
        let u = t.subrange(0, t.len() - 8);
        let w = t.subrange(t.len() - 8, t.len() as int);
        lemma_bits_to_bytes_back(u);
        lemma_nat_bits_of_value(w);
        lemma2_to64();
        let b = bits_value(w) as u8;
        assert(bits_to_bytes(t) =~= bits_to_bytes(u).push(b)) by {
            assert forall|i: int| 0 <= i < bits_to_bytes(u).len() implies
                #[trigger] bits_to_bytes(t)[i] == bits_to_bytes(u)[i] by {
                assert(t.subrange(8 * i, 8 * i + 8) =~= u.subrange(8 * i, 8 * i + 8));
            }
            assert(t.subrange(8 * (t.len() / 8 - 1), 8 * (t.len() / 8 - 1) + 8) =~= w);
        }
        assert(bits_to_bytes(u).push(b).drop_last() =~= bits_to_bytes(u));
        assert(u + w =~= t);
    }
}

/// How many bytes the frame number takes, read from its first byte (as in UTF-8).
pub open spec fn frame_number_len(b: nat) -> nat {
    if b < 0x80 {
        1
    } else if b < 0xE0 {
        2
    } else if b < 0xF0 {
        3
    } else if b < 0xF8 {
        4
    } else if b < 0xFC {
        5
    } else if b < 0xFE {
        6
    } else {
        7
    }
}

proof fn lemma_utf8_width(n: nat, k: nat)
    requires
        2 <= k <= 7,
    ensures
        k <= utf8_width(n, k) <= 7,
        utf8_width(n, k) == 7 || n < pow2(5 * utf8_width(n, k) + 1),
    decreases 8 - k,
{
    if !(k >= 7 || n < pow2(5 * k + 1)) {
        lemma_utf8_width(n, k + 1);
    }
}

/// The first byte of a frame number tells how many bytes it takes.
proof fn lemma_frame_number_len(n: u64)
    requires
        n < 0x10_0000_0000,
    ensures
        frame_number_bytes(n).len() >= 1,
        frame_number_len(frame_number_bytes(n)[0] as nat) == frame_number_bytes(n).len(),
{
    lemma2_to64();
    lemma2_to64_rest();
    if n >= 0x80 {
        let nb = utf8_width(n as nat, 2);
        lemma_utf8_width(n as nat, 2);
        let nbv = nb as u64;
        let lim = (5 * nbv + 1) as u64;
        let sh = (6 * (nbv - 1)) as u64;
        vstd::bits::lemma_u64_pow2_no_overflow(lim as nat);
        vstd::bits::lemma_u64_shl_is_mul(1, lim);
        assert(nb == 7 || n < (1u64 << lim));
        let first = ((0xFF00u64 >> nbv) & 0xFFu64) | (n >> sh);
        assert(first < 256
            && (nbv == 2 ==> 0xC0 <= first < 0xE0)
            && (nbv == 3 ==> 0xE0 <= first < 0xF0)
            && (nbv == 4 ==> 0xF0 <= first < 0xF8)
            && (nbv == 5 ==> 0xF8 <= first < 0xFC)
            && (nbv == 6 ==> 0xFC <= first < 0xFE)
            && (nbv == 7 ==> 0xFE <= first)) by (bit_vector)
            requires
                2 <= nbv <= 7,
                nbv == 7 || n < (1u64 << lim),
                n < 0x10_0000_0000,
                lim == 5 * nbv + 1,
                sh == 6 * (nbv - 1),
                first == ((0xFF00u64 >> nbv) & 0xFFu64) | (n >> sh);
        assert(frame_number_bytes(n)[0] == first as u8);
    }
}

/// Two channels interleaved, left first.
pub open spec fn interleave(l: Seq<int>, r: Seq<int>) -> Seq<int> {
    Seq::new(2 * l.len(), |j: int| if j % 2 == 0 { l[j / 2] } else { r[j / 2] })
}

/// The samples of a frame's subframes from `start` on, interleaved, by channel assignment:
/// mono (0), left/right (1), left/side (8), side/right (9) or mid/side (10). Side has 17 bits.
pub open spec fn decode_channels(b: Seq<bool>, start: int, assign: nat, frames: nat) -> Seq<int> {
    if assign == 0 {
        read_subframe(b, start, 16, frames).0
    } else {
        let a = read_subframe(b, start, if assign == 9 { 17 } else { 16 }, frames);
        let x = a.0;
        let c = read_subframe(b, a.1, if assign == 8 || assign == 10 { 17 } else { 16 }, frames).0;
        if assign == 1 {
            interleave(x, c)
        } else if assign == 8 {
            interleave(x, Seq::new(frames, |i: int| x[i] - c[i]))
        } else if assign == 9 {
            interleave(Seq::new(frames, |i: int| x[i] + c[i]), c)
        } else {
            interleave(
                Seq::new(frames, |i: int| (2 * x[i] + c[i] % 2 + c[i]) / 2),
                Seq::new(frames, |i: int| (2 * x[i] + c[i] % 2 - c[i]) / 2),
            )
        }
    }
}

/// What a decoder makes of a frame of `frames` samples per channel: it reads the block size
/// code, the channel assignment and the length of the frame number from the header, skips
/// the header and its CRC-8, and reads the subframes.
pub open spec fn decode_frame(fr: Seq<u8>, frames: nat) -> Seq<int> {
    let b = bytes_bits(fr);
    let code = read_nat(b, 16, 4);
    let assign = read_nat(b, 24, 4);
    let nl = frame_number_len(read_nat(b, 32, 8));
    let hl = 4 + nl + if code == 0b0111 { 2nat } else { 0nat };
    decode_channels(b, (8 * (hl + 1)) as int, assign, frames)
}

/// The samples of a block as integers.
pub open spec fn block_ints(block: Seq<i16>) -> Seq<int> {
    Seq::new(block.len(), |i: int| block[i] as int)
}

proof fn lemma_chan_fits(block: Seq<i16>, ch: nat, c: nat, frames: nat)
    requires
        c < ch,
        block.len() == frames * ch,
    ensures
        fits_bits(chan_spec(block, ch, c, frames), 16),
        forall|i: int| 0 <= i < frames ==> -0x8000 <= #[trigger] chan_spec(block, ch, c, frames)[i] < 0x8000,
{
    lemma2_to64();
    let x = chan_spec(block, ch, c, frames);
    assert forall|i: int| 0 <= i < frames implies -0x8000 <= #[trigger] x[i] < 0x8000 by {
        assert(i * ch + c < frames * ch) by (nonlinear_arith) requires 0 <= i < frames, c < ch;
        assert(0 <= i * ch + c) by (nonlinear_arith) requires 0 <= i, c >= 0, ch >= 0;
    }
}

proof fn lemma_channels_read(pre: Seq<bool>, block: Seq<i16>, ch: nat, frames: nat, rest: Seq<bool>)
    requires
        ch == 1 || ch == 2,
        1 <= frames <= 4096,
        block.len() == frames * ch,
    ensures
        channel_coding(block, ch, frames).0 < 16,
        decode_channels(pre + channel_coding(block, ch, frames).1 + rest, pre.len() as int,
            channel_coding(block, ch, frames).0, frames) == block_ints(block),
{
    lemma2_to64();
    let cd = channel_coding(block, ch, frames);
    let b = pre + cd.1 + rest;
    if ch == 1 {
        let x = chan_spec(block, ch, 0, frames);
        lemma_chan_fits(block, ch, 0, frames);
        lemma_subframe_read(pre, x, 16, rest);
        assert(samples_int(x) =~= block_ints(block));
    } else {
        let l = chan_spec(block, ch, 0, frames);
        let r = chan_spec(block, ch, 1, frames);
        lemma_chan_fits(block, ch, 0, frames);
        lemma_chan_fits(block, ch, 1, frames);
        let m = mid_spec(l, r);
        let sd = side_spec(l, r);
        assert(fits_bits(sd, 17)) by {
            assert forall|i: int| 0 <= i < sd.len() implies -(pow2(16) as int) <= #[trigger] sd[i] < pow2(16) by {
                assert(-0x8000 <= l[i] < 0x8000 && -0x8000 <= r[i] < 0x8000);
            }
        }
        assert(fits_bits(m, 16)) by {
            assert forall|i: int| 0 <= i < m.len() implies -(pow2(15) as int) <= #[trigger] m[i] < pow2(15) by {
                assert(-0x8000 <= l[i] < 0x8000 && -0x8000 <= r[i] < 0x8000);
            }
        }
        let sl = subframe_bits(l, 16);
        let sr = subframe_bits(r, 16);
        let sm = subframe_bits(m, 16);
        let ss = subframe_bits(sd, 17);
        assert forall|j: int| 0 <= j < 2 * frames implies #[trigger] block_ints(block)[j]
            == if j % 2 == 0 { l[j / 2] as int } else { r[j / 2] as int } by {
            assert(j == (j / 2) * 2 + j % 2);
        }
        if cd.0 == 1 {
            assert(b =~= pre + sl + (sr + rest));
            lemma_subframe_read(pre, l, 16, sr + rest);
            assert(b =~= (pre + sl) + sr + rest);
            lemma_subframe_read(pre + sl, r, 16, rest);
            assert(decode_channels(b, pre.len() as int, 1, frames) =~= block_ints(block));
        } else if cd.0 == 8 {
            assert(b =~= pre + sl + (ss + rest));
            lemma_subframe_read(pre, l, 16, ss + rest);
            assert(b =~= (pre + sl) + ss + rest);
            lemma_subframe_read(pre + sl, sd, 17, rest);
            assert(decode_channels(b, pre.len() as int, 8, frames) =~= block_ints(block));
        } else if cd.0 == 9 {
            assert(b =~= pre + ss + (sr + rest));
            lemma_subframe_read(pre, sd, 17, sr + rest);
            assert(b =~= (pre + ss) + sr + rest);
            lemma_subframe_read(pre + ss, r, 16, rest);
            assert(decode_channels(b, pre.len() as int, 9, frames) =~= block_ints(block));
        } else {
            assert(b =~= pre + sm + (ss + rest));
            lemma_subframe_read(pre, m, 16, ss + rest);
            assert(b =~= (pre + sm) + ss + rest);
            lemma_subframe_read(pre + sm, sd, 17, rest);
            assert forall|i: int| 0 <= i < frames implies
                (2 * (m[i] as int) + (sd[i] as int) % 2 + sd[i] as int) / 2 == l[i] as int
                && (2 * (m[i] as int) + (sd[i] as int) % 2 - sd[i] as int) / 2 == r[i] as int by {
                lemma_mid_side_lossless(l[i], r[i]);
            }
            assert(decode_channels(b, pre.len() as int, 10, frames) =~= block_ints(block));
        }
    }
}

proof fn lemma_pad_to_byte(t: Seq<bool>)
    ensures
        pad_to_byte(t).len() % 8 == 0,
{
    let r = t.len() % 8;
    assert(((8 - r) % 8) as nat + t.len() == pad_to_byte(t).len());
    assert((t.len() + (8 - r) % 8) % 8 == 0) by (nonlinear_arith)
        requires r == t.len() % 8;
}

proof fn lemma_header_fields(frames: nat, rate: u32, assign: nat, n: u64)
    requires
        1 <= frames <= 4096,
        assign < 16,
        n < 0x10_0000_0000,
    ensures
        ({
            let hb = frame_header_bits(frames, rate, assign, n);
            let fnb = frame_number_bytes(n);
            &&& hb.len() == 32 + 8 * fnb.len() + (if frames == 4096 { 0int } else { 16int })
            &&& hb.len() % 8 == 0
            &&& hb.len() >= 40
            &&& read_nat(hb, 16, 4) == block_size_code(frames)
            &&& read_nat(hb, 24, 4) == assign
            &&& frame_number_len(read_nat(hb, 32, 8)) == fnb.len()
        }),
{
    lemma2_to64();
    let fnb = frame_number_bytes(n);
    lemma_frame_number_len(n);
    lemma_bytes_bits_len(fnb);
    let bc = block_size_code(frames);
    let rc = sample_rate_code(rate);
    let tail16: Seq<bool> = if frames == 4096 { Seq::empty() } else { nat_bits((frames - 1) as nat, 16) };
    lemma_nat_bits_len(0x7FFC, 15);
    lemma_nat_bits_len(0, 1);
    lemma_nat_bits_len(bc, 4);
    lemma_nat_bits_len(rc, 4);
    lemma_nat_bits_len(assign, 4);
    lemma_nat_bits_len(0b100, 3);
    lemma_nat_bits_len((frames - 1) as nat, 16);
    let hb = frame_header_bits(frames, rate, assign, n);
    let p16 = nat_bits(0x7FFC, 15) + nat_bits(0, 1);
    let p24 = p16 + nat_bits(bc, 4) + nat_bits(rc, 4);
    let p32 = p24 + nat_bits(assign, 4) + nat_bits(0b100, 3) + nat_bits(0, 1);
    assert(hb == p32 + bytes_bits(fnb) + tail16);
    assert(hb.subrange(16, 20) =~= nat_bits(bc, 4));
    lemma_bits_value_nat_bits(bc, 4);
    assert(hb.subrange(24, 28) =~= nat_bits(assign, 4));
    lemma_bits_value_nat_bits(assign, 4);
    lemma_bytes_bits_concat(seq![fnb[0]], fnb.subrange(1, fnb.len() as int));
    assert(seq![fnb[0]] + fnb.subrange(1, fnb.len() as int) =~= fnb);
    lemma_bytes_bits_push(Seq::<u8>::empty(), fnb[0]);
    assert(Seq::<u8>::empty().push(fnb[0]) =~= seq![fnb[0]]);
    assert(bytes_bits(Seq::<u8>::empty()) =~= Seq::<bool>::empty());
    lemma_nat_bits_len(fnb[0] as nat, 8);
    assert(bytes_bits(fnb) =~= nat_bits(fnb[0] as nat, 8) + bytes_bits(fnb.subrange(1, fnb.len() as int)));
    assert(hb.subrange(32, 40) =~= nat_bits(fnb[0] as nat, 8));
    lemma_bits_value_nat_bits(fnb[0] as nat, 8);
}

proof fn lemma_frame_layout(block: Seq<i16>, ch: nat, frames: nat, rate: u32, n: u64)
    ensures
        ({
            let cd = channel_coding(block, ch, frames);
            let hb = frame_header_bits(frames, rate, cd.0, n);
            let h = bits_to_bytes(hb);
            hb.len() % 8 == 0 ==> exists|rest: Seq<bool>|
                #[trigger] bytes_bits(frame_spec(block, ch, frames, rate, n))
                    == hb + nat_bits(crc8_spec(h) as nat, 8) + cd.1 + rest
        }),
{
    let cd = channel_coding(block, ch, frames);
    let hb = frame_header_bits(frames, rate, cd.0, n);
    if hb.len() % 8 == 0 {
        let h = bits_to_bytes(hb);
        lemma_bits_to_bytes_back(hb);
        let c8 = crc8_spec(h);
        let pad = pad_to_byte(cd.1);
        lemma_pad_to_byte(cd.1);
        let bb8 = bits_to_bytes(pad);
        lemma_bits_to_bytes_back(pad);
        let f = h.push(c8) + bb8;
        let c = crc16_spec(f);
        let hi = (c >> 8u16) as u8;
        let lo = (c & 0xFFu16) as u8;
        let fr = frame_spec(block, ch, frames, rate, n);
        assert(fr == f.push(hi).push(lo));
        lemma_bytes_bits_push(f.push(hi), lo);
        lemma_bytes_bits_push(f, hi);
        lemma_bytes_bits_concat(h.push(c8), bb8);
        lemma_bytes_bits_push(h, c8);
        let rest = zeros(((8 - cd.1.len() % 8) % 8) as nat) + nat_bits(hi as nat, 8) + nat_bits(lo as nat, 8);
        assert(bytes_bits(fr) =~= hb + nat_bits(c8 as nat, 8) + cd.1 + rest);
    }
}

/// FLAC is lossless: decoding a frame gives back exactly the block of samples it was made
/// from, for mono or stereo blocks of 1 to 4096 samples per channel (frame numbers fit in the
/// 36 bits the format gives them).
pub proof fn lemma_frame_lossless(block: Seq<i16>, ch: nat, frames: nat, rate: u32, n: u64)
    requires
        ch == 1 || ch == 2,
        1 <= frames <= 4096,
        block.len() == frames * ch,
        n < 0x10_0000_0000,
    ensures
        decode_frame(frame_spec(block, ch, frames, rate, n), frames) == block_ints(block),
{
    lemma2_to64();
    let cd = channel_coding(block, ch, frames);
    lemma_channels_read(Seq::empty(), block, ch, frames, Seq::empty());
    lemma_header_fields(frames, rate, cd.0, n);
    let hb = frame_header_bits(frames, rate, cd.0, n);
    let h = bits_to_bytes(hb);
    lemma_frame_layout(block, ch, frames, rate, n);
    let c8 = crc8_spec(h);
    let rest = choose|rest: Seq<bool>| #[trigger] bytes_bits(frame_spec(block, ch, frames, rate, n))
        == hb + nat_bits(c8 as nat, 8) + cd.1 + rest;
    let bb = bytes_bits(frame_spec(block, ch, frames, rate, n));
    lemma_nat_bits_len(c8 as nat, 8);
    let pre = hb + nat_bits(c8 as nat, 8);
    assert(bb == pre + cd.1 + rest);
    assert(bb.subrange(16, 20) =~= hb.subrange(16, 20));
    assert(bb.subrange(24, 28) =~= hb.subrange(24, 28));
    assert(bb.subrange(32, 40) =~= hb.subrange(32, 40));
    lemma_channels_read(pre, block, ch, frames, rest);
    assert(h.len() == hb.len() / 8);
    assert(pre.len() == 8 * (h.len() + 1));
    assert(block_size_code(frames) == 0b0111 <==> frames != 4096);
}

/// STREAMINFO reads back what the stream is: the sample rate, the channels (minus one), 16 bits
/// per sample (written minus one, 15, the size every frame header gives with code 0b100)
/// and the total samples, at the bit positions the format gives them.
pub proof fn lemma_streaminfo_reads_back(min_frame: u32, max_frame: u32, f: PcmFormat, total: u64,
    frames: nat, rate: u32, assign: nat, n: u64)
    requires
        format_ok(f),
        total < 0x10_0000_0000,
    ensures
        ({
            let b = bytes_bits(streaminfo_spec(min_frame, max_frame, f, total));
            &&& read_nat(b, 0, 16) == 4096
            &&& read_nat(b, 16, 16) == 4096
            &&& read_nat(b, 80, 20) == f.sample_rate
            &&& read_nat(b, 100, 3) + 1 == f.channels
            &&& read_nat(b, 103, 5) + 1 == 16
            &&& read_nat(b, 108, 36) == total
        }),
        read_nat(frame_header_bits(frames, rate, assign, n), 28, 3) == 0b100,
{
    lemma2_to64();
    lemma2_to64_rest();
    let sb = streaminfo_bits(min_frame, max_frame, f, total);
    let mf = if min_frame == u32::MAX { 0 } else { min_frame as nat };
    lemma_nat_bits_len(4096, 16);
    lemma_nat_bits_len(mf, 24);
    lemma_nat_bits_len(max_frame as nat, 24);
    lemma_nat_bits_len(f.sample_rate as nat, 20);
    lemma_nat_bits_len((f.channels - 1) as nat, 3);
    lemma_nat_bits_len(15, 5);
    lemma_nat_bits_len(total as nat, 36);
    assert(sb.len() == 144);
    lemma_bits_to_bytes_back(sb);
    let z = zero_bytes(16);
    lemma_bytes_bits_concat(bits_to_bytes(sb), z);
    let b = bytes_bits(streaminfo_spec(min_frame, max_frame, f, total));
    assert(b == sb + bytes_bits(z));
    assert(b.subrange(0, 16) =~= nat_bits(4096, 16));
    assert(b.subrange(16, 32) =~= nat_bits(4096, 16));
    lemma_bits_value_nat_bits(4096, 16);
    assert(b.subrange(80, 100) =~= nat_bits(f.sample_rate as nat, 20));
    lemma_bits_value_nat_bits(f.sample_rate as nat, 20);
    assert(b.subrange(100, 103) =~= nat_bits((f.channels - 1) as nat, 3));
    lemma_bits_value_nat_bits((f.channels - 1) as nat, 3);
    assert(b.subrange(103, 108) =~= nat_bits(15, 5));
    lemma_bits_value_nat_bits(15, 5);
    assert(b.subrange(108, 144) =~= nat_bits(total as nat, 36));
    lemma_bits_value_nat_bits(total as nat, 36);
    // the frame header's sample-size code
    let bc = block_size_code(frames);
    let rc = sample_rate_code(rate);
    lemma_nat_bits_len(0x7FFC, 15);
    lemma_nat_bits_len(0, 1);
    lemma_nat_bits_len(bc, 4);
    lemma_nat_bits_len(rc, 4);
    lemma_nat_bits_len(assign, 4);
    lemma_nat_bits_len(0b100, 3);
    let hb = frame_header_bits(frames, rate, assign, n);
    assert(hb.subrange(28, 31) =~= nat_bits(0b100, 3));
    lemma_bits_value_nat_bits(0b100, 3);
}

} // verus!
