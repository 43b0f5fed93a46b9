//! Most-significant-bit-first bit writer, modelled as a sequence of booleans.

use vstd::prelude::*;
use vstd::arithmetic::power2::*;
use vstd::bits::*;

verus! {

/// The `k` low bits of `v`, most significant first.
pub open spec fn nat_bits(v: nat, k: nat) -> Seq<bool>
    decreases k,
{
    if k == 0 {
        Seq::empty()
    } else {
        nat_bits(v / 2, (k - 1) as nat).push(v % 2 == 1)
    }
}

/// The bits of a byte string, each byte most significant bit first.
pub open spec fn bytes_bits(s: Seq<u8>) -> Seq<bool>
    decreases s.len(),
{
    if s.len() == 0 {
        Seq::empty()
    } else {
        bytes_bits(s.drop_last()) + nat_bits(s.last() as nat, 8)
    }
}

pub proof fn lemma_nat_bits_len(v: nat, k: nat)
    ensures
        nat_bits(v, k).len() == k,
    decreases k,
{
    if k > 0 {
        lemma_nat_bits_len(v / 2, (k - 1) as nat);
    }
}

/// Writing `a` and then the `b` bits of `v` is writing `a * 2^b + v`.
pub proof fn lemma_nat_bits_concat(a: nat, v: nat, m: nat, b: nat)
    requires
        v < pow2(b),
    ensures
        nat_bits(a * pow2(b) + v, m + b) == nat_bits(a, m) + nat_bits(v, b),
    decreases b,
{
    if b == 0 {
        lemma2_to64();
        assert(v == 0);
        assert(nat_bits(v, 0) =~= Seq::<bool>::empty());
        assert(nat_bits(a, m) + nat_bits(v, b) =~= nat_bits(a, m));
    } else {
        lemma_pow2_unfold(b);
        let b1 = (b - 1) as nat;
        let p = pow2(b1);
        assert(pow2(b) == 2 * p);
        let x = a * pow2(b) + v;
        assert(a * pow2(b) == 2 * (a * p)) by (nonlinear_arith)
            requires pow2(b) == 2 * p;
        assert(x / 2 == a * p + v / 2) by (nonlinear_arith)
            requires x == 2 * (a * p) + v, v >= 0, a * p >= 0;
        assert(x % 2 == v % 2) by (nonlinear_arith)
            requires x == 2 * (a * p) + v, v >= 0, a * p >= 0;
        assert(v / 2 < p) by (nonlinear_arith)
            requires v < 2 * p, p > 0;
        lemma_nat_bits_concat(a, v / 2, m, b1);
        assert((m + b - 1) as nat == m + b1);
        assert(nat_bits(x, m + b) == nat_bits(x / 2, m + b1).push(x % 2 == 1));
        assert(nat_bits(v, b) == nat_bits(v / 2, b1).push(v % 2 == 1));
        assert((nat_bits(a, m) + nat_bits(v / 2, b1)).push(v % 2 == 1)
            =~= nat_bits(a, m) + nat_bits(v / 2, b1).push(v % 2 == 1));
    }
}

/// Only the low `k` bits of `v` are written.
pub proof fn lemma_nat_bits_mod(v: nat, k: nat)
    ensures
        nat_bits(v % pow2(k), k) == nat_bits(v, k),
    decreases k,
{
    lemma_pow2_pos(k);
    if k > 0 {
        lemma_pow2_unfold(k);
        let p = pow2((k - 1) as nat);
        lemma_pow2_pos((k - 1) as nat);
        let r = v % pow2(k);
        assert((v % (2 * p)) / 2 == (v / 2) % p && (v % (2 * p)) % 2 == v % 2) by {
            vstd::arithmetic::div_mod::lemma_mod_breakdown(v as int, 2, p as int);
            vstd::arithmetic::div_mod::lemma_mod_mod(v as int, 2, p as int);
            assert((v % (2 * p)) == 2 * ((v / 2) % p) + v % 2) by (nonlinear_arith)
                requires v % (2 * p) == 2 * ((v / 2) % p) + v % 2;
        }
        lemma_nat_bits_mod(v / 2, (k - 1) as nat);
    }
}

pub proof fn lemma_bytes_bits_len(s: Seq<u8>)
    ensures
        bytes_bits(s).len() == 8 * s.len(),
    decreases s.len(),
{
    if s.len() > 0 {
        lemma_bytes_bits_len(s.drop_last());
        lemma_nat_bits_len(s.last() as nat, 8);
    }
}

pub proof fn lemma_bytes_bits_push(s: Seq<u8>, b: u8)
    ensures
        bytes_bits(s.push(b)) == bytes_bits(s) + nat_bits(b as nat, 8),
{
    assert(s.push(b).drop_last() =~= s);
}

pub proof fn lemma_bytes_bits_concat(s: Seq<u8>, t: Seq<u8>)
    ensures
        bytes_bits(s + t) == bytes_bits(s) + bytes_bits(t),
    decreases t.len(),
{
    if t.len() == 0 {
        assert(s + t =~= s);
        assert(bytes_bits(s) + bytes_bits(t) =~= bytes_bits(s));
    } else {
        lemma_bytes_bits_concat(s, t.drop_last());
        assert((s + t).drop_last() =~= s + t.drop_last());
        assert((s + t).last() == t.last());
        assert(bytes_bits(s) + bytes_bits(t.drop_last()) + nat_bits(t.last() as nat, 8)
            =~= bytes_bits(s) + (bytes_bits(t.drop_last()) + nat_bits(t.last() as nat, 8)));
    }
}

/// `k` zero bits.
pub open spec fn zeros(k: nat) -> Seq<bool> {
    Seq::new(k, |i: int| false)
}

pub proof fn lemma_nat_bits_zero(k: nat)
    ensures
        nat_bits(0, k) == zeros(k),
    decreases k,
{
    if k > 0 {
        lemma_nat_bits_zero((k - 1) as nat);
        assert(zeros((k - 1) as nat).push(false) =~= zeros(k));
    } else {
        assert(nat_bits(0, 0) =~= zeros(0));
    }
}

pub proof fn lemma_nat_bits_one(k: nat)
    ensures
        nat_bits(1, k + 1) == zeros(k).push(true),
{
    lemma_nat_bits_zero(k);
}

/// Two's-complement bits of `v` in a `k`-bit field.
pub open spec fn signed_bits(v: int, k: nat) -> Seq<bool> {
    nat_bits((v % (pow2(k) as int)) as nat, k)
}

/// Interleaved sign ("zigzag") mapping: 0, -1, 1, -2, 2 ... to 0, 1, 2, 3, 4 ...
pub open spec fn zigzag(v: int) -> nat {
    if v >= 0 { (2 * v) as nat } else { (-2 * v - 1) as nat }
}

/// Inverse of `zigzag`.
pub open spec fn unzigzag(u: nat) -> int {
    if u % 2 == 0 { (u / 2) as int } else { -((u + 1) / 2) as int }
}

/// Zigzag loses nothing: every residual is recovered from its code.
pub proof fn lemma_zigzag_roundtrip(v: int)
    ensures
        unzigzag(zigzag(v)) == v,
{
}

/// Magnitude bound under which residuals are Rice-coded without overflow.
pub open spec fn small(v: int) -> bool {
    -0x100_0000_0000 < v < 0x100_0000_0000
}

/// Rice code with parameter `k`: the quotient in unary (zeros closed by a one),
/// then the `k` low bits of the zigzag value.
pub open spec fn rice_bits(v: int, k: nat) -> Seq<bool> {
    zeros(zigzag(v) / pow2(k)).push(true) + nat_bits(zigzag(v) % pow2(k), k)
}

/// Decodes one Rice code word at the start of `s`; returns the value and the bits used.
pub open spec fn rice_decode(s: Seq<bool>, k: nat) -> (int, nat)
    recommends
        exists|i: int| 0 <= i < s.len() && s[i],
{
    let q = choose|q: nat| q < s.len() && s[q as int] && (forall|j: int| 0 <= j < q ==> !s[j]);
    let r = bits_value(s.subrange(q as int + 1, q as int + 1 + k as int));
    (unzigzag(q * pow2(k) + r), q + 1 + k)
}

/// The number written by a big-endian bit string.
pub open spec fn bits_value(s: Seq<bool>) -> nat
    decreases s.len(),
{
    if s.len() == 0 {
        0
    } else {
        2 * bits_value(s.drop_last()) + if s.last() { 1nat } else { 0nat }
    }
}

pub proof fn lemma_bits_value_nat_bits(v: nat, k: nat)
    requires
        v < pow2(k),
    ensures
        bits_value(nat_bits(v, k)) == v,
    decreases k,
{
    if k == 0 {
        lemma2_to64();
    } else {
        lemma_pow2_unfold(k);
        assert(v / 2 < pow2((k - 1) as nat));
        lemma_bits_value_nat_bits(v / 2, (k - 1) as nat);
        let s = nat_bits(v, k);
        assert(s.drop_last() =~= nat_bits(v / 2, (k - 1) as nat));
    }
}

/// A Rice code word decodes to the value it was written from, whatever follows it.
pub proof fn lemma_rice_roundtrip(v: int, k: nat, rest: Seq<bool>)
    ensures
        rice_decode(rice_bits(v, k) + rest, k) == (v, zigzag(v) / pow2(k) + 1 + k),
{
    let s = rice_bits(v, k) + rest;
    let u = zigzag(v);
    lemma_pow2_pos(k);
    let q0 = u / pow2(k);
    let r0 = u % pow2(k);
    lemma_nat_bits_len(r0, k);
    assert(s[q0 as int]);
    assert(forall|j: int| 0 <= j < q0 ==> !s[j]);
    let q = choose|q: nat| q < s.len() && s[q as int] && (forall|j: int| 0 <= j < q ==> !s[j]);
    assert(q < s.len() && s[q as int] && (forall|j: int| 0 <= j < q ==> !s[j]));
    if q < q0 {
        assert(!s[q as int]);
    }
    if q > q0 {
        assert(!s[q0 as int]);
    }
    assert(q == q0);
    assert(s.subrange(q as int + 1, q as int + 1 + k as int) =~= nat_bits(r0, k));
    vstd::arithmetic::div_mod::lemma_mod_pos_bound(u as int, pow2(k) as int);
    lemma_bits_value_nat_bits(r0, k);
    vstd::arithmetic::div_mod::lemma_fundamental_div_mod(u as int, pow2(k) as int);
    assert(q * pow2(k) + r0 == u) by (nonlinear_arith)
        requires u == pow2(k) * q0 + r0, q == q0;
    lemma_zigzag_roundtrip(v);
}

/// A bit writer: whole bytes so far, plus `n` (< 8) pending bits held in `acc`.
pub struct Bits {
    pub bytes: Vec<u8>,
    pub acc: u64,
    pub n: u32,
}

impl Bits {
    pub open spec fn wf(&self) -> bool {
        self.n < 8 && self.acc < pow2(self.n as nat)
    }

    /// Every bit written so far, in order.
    pub open spec fn bits(&self) -> Seq<bool> {
        bytes_bits(self.bytes@) + nat_bits(self.acc as nat, self.n as nat)
    }

    pub fn new() -> (b: Bits)
        ensures
            b.wf(),
            b.bits() == Seq::<bool>::empty(),
    {
        proof {
            lemma2_to64();
            assert(bytes_bits(Seq::<u8>::empty()) =~= Seq::<bool>::empty());
            assert(nat_bits(0, 0) =~= Seq::<bool>::empty());
        }
        Bits { bytes: Vec::new(), acc: 0, n: 0 }
    }

    /// Appends the `bits` low bits of `value`, most significant first.
    pub fn put(&mut self, value: u64, bits: u32)
        requires
            old(self).wf(),
            bits <= 56,
            value < pow2(bits as nat),
        ensures
            final(self).wf(),
            final(self).bits() == old(self).bits() + nat_bits(value as nat, bits as nat),
            final(self).n as int == (old(self).n + bits) % 8,
    {
        let ghost n_end = (self.n + bits) % 8;
        let ghost target = self.bits() + nat_bits(value as nat, bits as nat);
        proof {
            lemma_pow2_adds(self.n as nat, bits as nat);
            lemma_u64_pow2_no_overflow(bits as nat);
            lemma_pow2_strictly_increases((self.n + bits) as nat, 64);
            lemma2_to64(); lemma2_to64_rest();
            assert(self.acc * pow2(bits as nat) + value < pow2((self.n + bits) as nat)) by (nonlinear_arith)
                requires
                    self.acc < pow2(self.n as nat),
                    value < pow2(bits as nat),
                    pow2((self.n + bits) as nat) == pow2(self.n as nat) * pow2(bits as nat);
            lemma_u64_shl_is_mul(self.acc, bits as u64);
            lemma_nat_bits_concat(self.acc as nat, value as nat, self.n as nat, bits as nat);
        }
        let acc = self.acc;
        let shifted = acc << bits;
        proof {
            lemma_u64_shl_is_mul(1, bits as u64);
        }
        assert(shifted | value == shifted + value) by (bit_vector)
            requires
                value < (1u64 << bits),
                shifted == acc << bits,
                bits <= 56,
                acc < 256;
        self.acc = shifted | value;
        self.n = self.n + bits;
        while self.n >= 8
            invariant
                self.n < 64,
                self.n % 8 == n_end,
                target == bytes_bits(self.bytes@) + nat_bits(self.acc as nat, self.n as nat),
            decreases self.n,
        {
            self.n = self.n - 8;
            let top = self.acc >> self.n;
            let byte = #[verifier::truncate] (top as u8);
            assert(byte == top % 256) by (bit_vector)
                requires byte == top as u8;
            proof {
                let n = self.n as nat;
                let a = self.acc as nat;
                lemma_u64_shr_is_div(self.acc, self.n as u64);
                lemma_pow2_pos(n);
                assert(a == (a / pow2(n)) * pow2(n) + a % pow2(n)) by (nonlinear_arith)
                    requires pow2(n) > 0;
                vstd::arithmetic::div_mod::lemma_mod_pos_bound(a as int, pow2(n) as int);
                lemma_nat_bits_concat(a / pow2(n), a % pow2(n), 8, n);
                lemma_nat_bits_mod(a, n);
                lemma_nat_bits_mod(a / pow2(n), 8);
                lemma2_to64();
                assert(byte as nat == (a / pow2(n)) % 256);
                let old_bytes = self.bytes@;
                assert(old_bytes.push(byte).drop_last() =~= old_bytes);
                assert(bytes_bits(old_bytes.push(byte)) == bytes_bits(old_bytes) + nat_bits(byte as nat, 8));
                assert(bytes_bits(old_bytes) + nat_bits(a, n + 8)
                    =~= bytes_bits(old_bytes) + nat_bits(byte as nat, 8) + nat_bits(a, n));
                lemma_pow2_strictly_increases(n, n + 8);
            }
            self.bytes.push(byte);
        }
        proof {
            lemma_u64_low_bits_mask_is_mod(self.acc, self.n as nat);
            lemma_u64_shl_is_mul(1, self.n as u64);
            lemma_u64_pow2_no_overflow(self.n as nat);
            lemma_nat_bits_mod(self.acc as nat, self.n as nat);
            vstd::arithmetic::div_mod::lemma_mod_pos_bound(self.acc as int, pow2(self.n as nat) as int);
        }
        self.acc = self.acc & ((1u64 << self.n) - 1);
    }

    /// Appends `v` as a two's-complement field of `bits` bits.
    pub fn put_signed(&mut self, v: i64, bits: u32)
        requires
            old(self).wf(),
            1 <= bits <= 32,
        ensures
            final(self).wf(),
            final(self).bits() == old(self).bits() + signed_bits(v as int, bits as nat),
    {
        let u = #[verifier::truncate] (v as u64);
        proof {
            lemma_u64_pow2_no_overflow(bits as nat);
            lemma_u64_shl_is_mul(1, bits as u64);
        }
        let mask = (1u64 << bits) - 1;
        let value = u & mask;
        proof {
            lemma_u64_low_bits_mask_is_mod(u, bits as nat);
            lemma_pow2_pos(bits as nat);
            vstd::arithmetic::div_mod::lemma_mod_pos_bound(u as int, pow2(bits as nat) as int);
            lemma_signed_mod(v, bits as nat);
        }
        self.put(value, bits);
    }

    /// Appends the Rice code of `v` with parameter `k`.
    pub fn rice(&mut self, v: i64, k: u32)
        requires
            old(self).wf(),
            k <= 30,
            small(v as int),
        ensures
            final(self).wf(),
            final(self).bits() == old(self).bits() + rice_bits(v as int, k as nat),
    {
        let u = zigzag_u64(v);
        let mut q = u >> k;
        let ghost q0 = q as nat;
        proof {
            lemma_u64_shr_is_div(u, k as u64);
            lemma_nat_bits_zero(32);
            lemma2_to64();
        }
        let ghost start = self.bits();
        while q >= 32
            invariant
                self.wf(),
                q <= q0,
                self.bits() == start + zeros((q0 - q) as nat),
            decreases q,
        {
            proof {
                lemma_nat_bits_zero(32);
                lemma2_to64();
            }
            self.put(0, 32);
            proof {
                assert(zeros((q0 - q) as nat) + zeros(32) =~= zeros((q0 - (q - 32)) as nat));
            }
            q = q - 32;
        }
        proof {
            lemma_nat_bits_one(q as nat);
            lemma_u64_pow2_no_overflow((q + 1) as nat);
            lemma_pow2_strictly_increases(0, (q + 1) as nat);
            lemma2_to64();
            assert(zeros((q0 - q) as nat) + zeros(q as nat).push(true) =~= zeros(q0).push(true));
        }
        self.put(1, (q + 1) as u32);
        let ghost mid = self.bits();
        proof {
            lemma_pow2_pos(k as nat);
            lemma_u64_pow2_no_overflow(k as nat);
        }
        if k > 0 {
            proof {
                lemma_u64_shl_is_mul(1, k as u64);
            }
            let mask = (1u64 << k) - 1;
            proof {
                lemma_u64_low_bits_mask_is_mod(u, k as nat);
                vstd::arithmetic::div_mod::lemma_mod_pos_bound(u as int, pow2(k as nat) as int);
            }
            self.put(u & mask, k);
        } else {
            proof {
                assert(nat_bits(u as nat % pow2(0), 0) =~= Seq::<bool>::empty());
                assert(mid + Seq::<bool>::empty() =~= mid);
            }
        }
        proof {
            assert(start + zeros(q0).push(true) + nat_bits(u as nat % pow2(k as nat), k as nat)
                =~= start + rice_bits(v as int, k as nat));
        }
    }

    /// Pads with zero bits up to the next byte boundary.
    pub fn align(&mut self)
        requires
            old(self).wf(),
        ensures
            final(self).wf(),
            final(self).n == 0,
            final(self).bits() == old(self).bits() + zeros(if old(self).n == 0 { 0 } else { (8 - old(self).n) as nat }),
    {
        if self.n > 0 {
            proof {
                lemma_nat_bits_zero((8 - self.n) as nat);
                lemma_pow2_pos((8 - self.n) as nat);
            }
            self.put(0, 8 - self.n);
        } else {
            assert(self.bits() + zeros(0) =~= self.bits());
        }
    }

    /// Number of bits written.
    pub fn bit_len(&self) -> (r: u64)
        requires
            self.wf(),
            self.bits().len() <= u64::MAX,
        ensures
            r == self.bits().len(),
    {
        proof {
            lemma_bytes_bits_len(self.bytes@);
            lemma_nat_bits_len(self.acc as nat, self.n as nat);
        }
        self.bytes.len() as u64 * 8 + self.n as u64
    }

    /// Appends every bit written to `other`.
    pub fn append(&mut self, other: &Bits)
        requires
            old(self).wf(),
            other.wf(),
        ensures
            final(self).wf(),
            final(self).bits() == old(self).bits() + other.bits(),
    {
        let ghost start = self.bits();
        let mut i: usize = 0;
        proof { lemma2_to64(); }
        while i < other.bytes.len()
            invariant
                self.wf(),
                i <= other.bytes.len(),
                self.bits() == start + bytes_bits(other.bytes@.subrange(0, i as int)),
            decreases other.bytes.len() - i,
        {
            let b = other.bytes[i];
            proof { lemma2_to64(); }
            self.put(b as u64, 8);
            proof {
                assert(other.bytes@.subrange(0, i + 1) =~= other.bytes@.subrange(0, i as int).push(b));
                lemma_bytes_bits_push(other.bytes@.subrange(0, i as int), b);
            }
            i = i + 1;
        }
        assert(other.bytes@.subrange(0, i as int) =~= other.bytes@);
        if other.n > 0 {
            proof {
                lemma_u64_pow2_no_overflow(other.n as nat);
                lemma_u64_shl_is_mul(1, other.n as u64);
                lemma_u64_low_bits_mask_is_mod(other.acc, other.n as nat);
                vstd::arithmetic::div_mod::lemma_small_mod(other.acc as nat, pow2(other.n as nat));
            }
            self.put(other.acc & ((1u64 << other.n) - 1), other.n);
        } else {
            assert(nat_bits(other.acc as nat, 0) =~= Seq::<bool>::empty());
        }
        assert(start + bytes_bits(other.bytes@) + nat_bits(other.acc as nat, other.n as nat)
            =~= start + other.bits());
    }
}

/// `v as u64` masked to `k` bits is `v` modulo `2^k`.
proof fn lemma_signed_mod(v: i64, k: nat)
    requires
        1 <= k <= 32,
    ensures
        ((v as u64) as int) % (pow2(k) as int) == (v as int) % (pow2(k) as int),
{
    lemma_pow2_pos(k);
    lemma_u64_pow2_no_overflow(k);
    lemma2_to64();
    lemma2_to64_rest();
    let p = pow2(k) as int;
    let m = 0x1_0000_0000_0000_0000int;
    if v >= 0 {
        assert((v as u64) as int == v as int);
    } else {
        let w = (-(v + 1)) as u64;
        assert((v as u64) == !w) by (bit_vector)
            requires v < 0, w == (-(v + 1)) as u64;
        assert(!w == 0xffff_ffff_ffff_ffffu64 - w) by (bit_vector);
        assert((v as u64) as int == v as int + m);
        lemma_pow2_adds(k, (64 - k) as nat);
        assert(pow2(64) == m) by { lemma2_to64_rest(); }
        assert(m == p * (pow2((64 - k) as nat) as int));
        vstd::arithmetic::div_mod::lemma_mod_multiples_vanish(pow2((64 - k) as nat) as int, v as int, p);
        assert((v as int + m) % p == (v as int) % p) by {
            assert(v as int + m == p * (pow2((64 - k) as nat) as int) + v as int);
        }
    }
}

/// Zigzag code of a residual.
pub fn zigzag_u64(v: i64) -> (u: u64)
    requires
        small(v as int),
    ensures
        u == zigzag(v as int),
        u < 0x200_0000_0000,
{
    if v >= 0 {
        (v as u64) * 2
    } else {
        ((-(v + 1)) as u64) * 2 + 1
    }
}

} // verus!
