//! Bit-level access to byte sequences.
//!
//! A byte sequence is read as a stream of bits: byte 0 first, and within each byte the least
//! significant bit first. A run of `n` bits is turned into an integer in one of two ways:
//! with `LsbFirst` the first bit of the run is the least significant bit of the result, with
//! `MsbFirst` it is the most significant one.
use vstd::prelude::*;
use crate::error::DecodeError;
use vstd::arithmetic::power2::{pow2, lemma2_to64, lemma_pow2_unfold, lemma_pow2_pos, lemma_pow2_adds};
use vstd::arithmetic::div_mod::{
    lemma_fundamental_div_mod, lemma_fundamental_div_mod_converse, lemma_mod_multiples_vanish,
};
use vstd::bits::{lemma_u8_shr_is_div, lemma_u8_shl_is_mul, lemma_u64_shl_is_mul};

verus! {

/// The `i`-th bit of byte `b`, counting from the least significant bit.
pub open spec fn byte_bit(b: u8, i: nat) -> nat {
    ((b as nat) / pow2(i)) % 2
}

/// The `k`-th bit of the stream formed by `data`.
pub open spec fn stream_bit(data: Seq<u8>, k: nat) -> nat {
    byte_bit(data[(k / 8) as int], k % 8)
}

/// The `n` bits starting at bit `pos`, the first one least significant.
pub open spec fn lsb_value(data: Seq<u8>, pos: nat, n: nat) -> nat
    decreases n,
{
    if n == 0 {
        0
    } else {
        lsb_value(data, pos, (n - 1) as nat) + stream_bit(data, (pos + n - 1) as nat) * pow2(
            (n - 1) as nat,
        )
    }
}

/// The `n` bits starting at bit `pos`, the first one most significant.
pub open spec fn msb_value(data: Seq<u8>, pos: nat, n: nat) -> nat
    decreases n,
{
    if n == 0 {
        0
    } else {
        msb_value(data, pos, (n - 1) as nat) * 2 + stream_bit(data, (pos + n - 1) as nat)
    }
}

#[derive(PartialEq, Eq, Debug, Clone, Copy, Structural)]
pub enum BitOrder {
    MsbFirst,
    LsbFirst,
}

/// The `n` bits starting at bit `pos`, assembled in the order `order`.
pub open spec fn bits_value(data: Seq<u8>, pos: nat, n: nat, order: BitOrder) -> nat {
    match order {
        BitOrder::MsbFirst => msb_value(data, pos, n),
        BitOrder::LsbFirst => lsb_value(data, pos, n),
    }
}

/// The bit of `value` that holds stream bit `i` of an `n`-bit run read in `order`.
pub open spec fn run_bit(value: nat, n: nat, i: nat, order: BitOrder) -> nat {
    match order {
        BitOrder::MsbFirst => (value / pow2((n - 1 - i) as nat)) % 2,
        BitOrder::LsbFirst => (value / pow2(i)) % 2,
    }
}

proof fn lemma_lsb_value_bound(data: Seq<u8>, pos: nat, n: nat)
    ensures
        lsb_value(data, pos, n) < pow2(n),
    decreases n,
{
    if n == 0 {
        lemma2_to64();
    } else {
        lemma_lsb_value_bound(data, pos, (n - 1) as nat);
        lemma_pow2_unfold(n);
        let b = stream_bit(data, (pos + n - 1) as nat);
        assert(b <= 1);
        assert(b * pow2((n - 1) as nat) <= pow2((n - 1) as nat)) by (nonlinear_arith)
            requires
                b <= 1,
        ;
    }
}

proof fn lemma_msb_value_bound(data: Seq<u8>, pos: nat, n: nat)
    ensures
        msb_value(data, pos, n) < pow2(n),
    decreases n,
{
    if n == 0 {
        lemma2_to64();
    } else {
        lemma_msb_value_bound(data, pos, (n - 1) as nat);
        lemma_pow2_unfold(n);
    }
}

/// A run of `n` bits read in either order is below `2^n`.
pub proof fn lemma_bits_value_bound(data: Seq<u8>, pos: nat, n: nat, order: BitOrder)
    ensures
        bits_value(data, pos, n, order) < pow2(n),
{
    lemma_lsb_value_bound(data, pos, n);
    lemma_msb_value_bound(data, pos, n);
}

proof fn lemma_lsb_round_trip(data: Seq<u8>, pos: nat, n: nat, i: nat)
    requires
        i < n,
    ensures
        (lsb_value(data, pos, n) / pow2(i)) % 2 == stream_bit(data, pos + i),
    decreases n,
{
    let m = (n - 1) as nat;
    let rest = lsb_value(data, pos, m);
    let b = stream_bit(data, pos + m);
    lemma_lsb_value_bound(data, pos, m);
    lemma_pow2_pos(i);
    lemma_pow2_pos(m);
    if i == m {
        // rest < 2^i, so the quotient is exactly b
        assert(lsb_value(data, pos, n) == rest + b * pow2(i));
        assert((rest + b * pow2(i)) / pow2(i) == b) by (nonlinear_arith)
            requires
                rest < pow2(i),
                pow2(i) > 0,
        ;
    } else {
        lemma_lsb_round_trip(data, pos, m, i);
        let p = pow2(i);
        let h = pow2((m - i - 1) as nat);
        lemma_pow2_adds(i, (m - i) as nat);
        lemma_pow2_unfold((m - i) as nat);
        assert(pow2(m) == p * (2 * h));
        let k = 2 * (b * h);
        assert(b * pow2(m) == p * k) by (nonlinear_arith)
            requires
                pow2(m) == p * (2 * h),
                k == 2 * (b * h),
        ;
        lemma_fundamental_div_mod(rest as int, p as int);
        let value = rest + p * k;
        assert(value == p * (rest / p + k) + rest % p) by (nonlinear_arith)
            requires
                rest == p * (rest / p) + rest % p,
                value == rest + p * k,
        ;
        lemma_fundamental_div_mod_converse(value as int, p as int, (rest / p + k) as int, (rest % p) as int);
        lemma_mod_multiples_vanish((b * h) as int, (rest / p) as int, 2);
    }
}

proof fn lemma_msb_round_trip(data: Seq<u8>, pos: nat, n: nat, i: nat)
    requires
        i < n,
    ensures
        (msb_value(data, pos, n) / pow2((n - 1 - i) as nat)) % 2 == stream_bit(data, pos + i),
    decreases n,
{
    let m = (n - 1) as nat;
    let rest = msb_value(data, pos, m);
    let b = stream_bit(data, pos + m);
    let value = rest * 2 + b;
    assert(msb_value(data, pos, n) == value);
    if i == m {
        lemma2_to64();
        assert(value % 2 == b) by (nonlinear_arith)
            requires
                value == rest * 2 + b,
                b <= 1,
        ;
        assert((n - 1 - i) as nat == 0);
        assert(value / 1 == value);
    } else {
        lemma_msb_round_trip(data, pos, m, i);
        let e = (m - 1 - i) as nat;
        lemma_pow2_unfold(e + 1);
        lemma_pow2_pos(e);
        vstd::arithmetic::div_mod::lemma_div_denominator(value as int, 2, pow2(e) as int);
        assert(value / 2 == rest) by (nonlinear_arith)
            requires
                value == rest * 2 + b,
                b <= 1,
        ;
        assert(pow2((n - 1 - i) as nat) == 2 * pow2(e));
        assert(value / pow2((n - 1 - i) as nat) == rest / pow2(e));
    }
}

/// Reading a run of bits loses nothing: every bit of the run can be taken back out of the
/// value read, at the place that the bit order gives it.
pub proof fn lemma_read_round_trip(data: Seq<u8>, pos: nat, n: nat, order: BitOrder, i: nat)
    requires
        i < n,
    ensures
        run_bit(bits_value(data, pos, n, order), n, i, order) == stream_bit(data, pos + i),
{
    match order {
        BitOrder::MsbFirst => lemma_msb_round_trip(data, pos, n, i),
        BitOrder::LsbFirst => lemma_lsb_round_trip(data, pos, n, i),
    }
}

/// Two runs read one after the other, least significant bit first, make up the run of both:
/// the second run's value sits above the first one's.
pub proof fn lemma_lsb_runs_concatenate(data: Seq<u8>, pos: nat, n1: nat, n2: nat)
    ensures
        lsb_value(data, pos, n1 + n2) == lsb_value(data, pos, n1) + lsb_value(data, pos + n1, n2)
            * pow2(n1),
    decreases n2,
{
    if n2 > 0 {
        let m = (n2 - 1) as nat;
        lemma_lsb_runs_concatenate(data, pos, n1, m);
        let b = stream_bit(data, pos + n1 + m);
        assert((pos + (n1 + n2) - 1) as nat == pos + n1 + m);
        assert((pos + n1 + n2 - 1) as nat == pos + n1 + m);
        lemma_pow2_adds(n1, m);
        let a = lsb_value(data, pos, n1);
        let r = lsb_value(data, pos + n1, m);
        let scale_first = pow2(n1);
        let pm = pow2(m);
        assert(lsb_value(data, pos, n1 + n2) == lsb_value(data, pos, n1 + m) + b * pow2(n1 + m));
        assert(lsb_value(data, pos + n1, n2) == r + b * pm);
        assert(a + r * scale_first + b * (scale_first * pm) == a + (r + b * pm) * scale_first) by (nonlinear_arith);
    } else {
        assert(lsb_value(data, pos + n1, 0) == 0);
        assert(0 * pow2(n1) == 0);
        assert(n1 + n2 == n1);
    }
}

/// Two runs read one after the other, most significant bit first, make up the run of both:
/// the first run's value sits above the second one's.
pub proof fn lemma_msb_runs_concatenate(data: Seq<u8>, pos: nat, n1: nat, n2: nat)
    ensures
        msb_value(data, pos, n1 + n2) == msb_value(data, pos, n1) * pow2(n2) + msb_value(
            data,
            pos + n1,
            n2,
        ),
    decreases n2,
{
    if n2 == 0 {
        lemma2_to64();
    } else {
        let m = (n2 - 1) as nat;
        lemma_msb_runs_concatenate(data, pos, n1, m);
        lemma_pow2_unfold(n2);
        let b = stream_bit(data, pos + n1 + m);
        assert((pos + (n1 + n2) - 1) as nat == pos + n1 + m);
        assert((pos + n1 + n2 - 1) as nat == pos + n1 + m);
        let a = msb_value(data, pos, n1);
        let r = msb_value(data, pos + n1, m);
        let pm = pow2(m);
        assert((a * pm + r) * 2 + b == a * (2 * pm) + (r * 2 + b)) by (nonlinear_arith);
        assert((n1 + n2 - 1) as nat == n1 + m);
    }
}

/// The byte `b` with the order of its bits reversed.
pub fn reverse_bits(b: u8) -> (r: u8)
    ensures
        forall|i: nat| i < 8 ==> #[trigger] byte_bit(r, i) == byte_bit(b, (7 - i) as nat),
{
    let mut x: u8 = (b & 0b11110000) >> 4 | (b & 0b00001111) << 4;
    x = (x & 0b11001100) >> 2 | (x & 0b00110011) << 2;
    x = (x & 0b10101010) >> 1 | (x & 0b01010101) << 1;
    proof {
        let y = x;
        assert forall|i: nat| i < 8 implies #[trigger] byte_bit(y, i) == byte_bit(b, (7 - i) as nat) by {
            let j = i as u8;
            let k = (7 - i) as u8;
            assert(((y >> j) & 1) == ((b >> k) & 1)) by (bit_vector)
                requires
                    j < 8,
                    k == 7 - j,
                    y == ({
                        let x1: u8 = (b & 0b11110000) >> 4 | (b & 0b00001111) << 4;
                        let x2: u8 = (x1 & 0b11001100) >> 2 | (x1 & 0b00110011) << 2;
                        (x2 & 0b10101010) >> 1 | (x2 & 0b01010101) << 1
                    }),
            ;
            lemma_bit_of_byte(y, j);
            lemma_bit_of_byte(b, k);
        }
    }
    x
}

/// `(b >> i) & 1` is bit `i` of `b`.
pub proof fn lemma_bit_of_byte(b: u8, i: u8)
    requires
        i < 8,
    ensures
        ((b >> i) & 1) as nat == byte_bit(b, i as nat),
{
    lemma_u8_shr_is_div(b, i);
    let s = b >> i;
    assert(s & 1 == s % 2) by (bit_vector);
}

/// The `min(n, 8)` least significant bits of `byte`.
pub fn first_n_bits(byte: u8, n: u64) -> (r: u8)
    ensures
        r as nat == (byte as nat) % pow2(if n < 8 { n as nat } else { 8 }),
{
    if n >= 8 {
        proof {
            lemma2_to64();
        }
        byte
    } else {
        let k = n as u8;
        proof {
            lemma2_to64();
            if k < 7 {
                vstd::arithmetic::power2::lemma_pow2_strictly_increases(k as nat, 7);
            }
            lemma_u8_shl_is_mul(1, k);
        }
        let p: u8 = 1u8 << k;
        let r = byte % p;
        r
    }
}

/// The `min(n, 8)` most significant bits of `byte`, shifted down.
pub fn last_n_bits(byte: u8, n: u64) -> (r: u8)
    ensures
        r as nat == (byte as nat) / pow2((8 - (if n < 8 { n as nat } else { 8 })) as nat),
{
    if n >= 8 {
        proof {
            lemma2_to64();
            assert(byte as nat / 1 == byte as nat);
        }
        byte
    } else if n == 0 {
        proof {
            lemma2_to64();
            assert(byte as nat / 256 == 0);
        }
        0
    } else {
        let s = (8 - n) as u8;
        proof {
            lemma_u8_shr_is_div(byte, s);
        }
        byte >> s
    }
}

/// Whether the run of `n_bits` bits from `bit_idx` on lies within `len` bytes (and its end
/// can be counted in a `usize`).
pub open spec fn fits(len: nat, bit_idx: nat, n_bits: nat) -> bool {
    bit_idx + n_bits <= 8 * len && bit_idx + n_bits <= usize::MAX
}

/// The `n_bits` bits of `bytes` from bit `bit_idx` on, assembled in `bit_order`.
pub fn n_bits_by_index(bytes: &[u8], n_bits: u8, bit_idx: usize, bit_order: BitOrder) -> (r: u64)
    requires
        n_bits <= 64,
        fits(bytes@.len(), bit_idx as nat, n_bits as nat),
    ensures
        r as nat == bits_value(bytes@, bit_idx as nat, n_bits as nat, bit_order),
{
    let mut v: u64 = 0;
    let mut i: u8 = 0;
    while i < n_bits
        invariant
            i <= n_bits <= 64,
            fits(bytes@.len(), bit_idx as nat, n_bits as nat),
            v as nat == bits_value(bytes@, bit_idx as nat, i as nat, bit_order),
        decreases n_bits - i,
    {
        let k: usize = bit_idx + i as usize;
        let sh: u8 = (k % 8) as u8;
        let bit: u64 = ((bytes[k / 8] >> sh) & 1) as u64;
        proof {
            lemma_bit_of_byte(bytes@[(k / 8) as int], sh);
            assert(bit as nat == stream_bit(bytes@, bit_idx as nat + i as nat));
            lemma_bits_value_bound(bytes@, bit_idx as nat, i as nat, bit_order);
            lemma2_to64();
            vstd::arithmetic::power2::lemma_pow2_strictly_increases(i as nat, 64);
            lemma_pow2_unfold(i as nat + 1);
            if i < 63 {
                vstd::arithmetic::power2::lemma_pow2_strictly_increases(i as nat + 1, 64);
            }
        }
        match bit_order {
            BitOrder::MsbFirst => {
                v = v * 2 + bit;
            },
            BitOrder::LsbFirst => {
                proof {
                    assert(bit * pow2(i as nat) <= pow2(i as nat)) by (nonlinear_arith)
                        requires
                            bit <= 1,
                    ;
                    lemma_u64_shl_is_mul(bit, i as u64);
                }
                v = v + (bit << (i as u64));
            },
        }
        i = i + 1;
    }
    v
}

/// Bytes held by the lookahead buffer of a `BitStream`: eight for the widest read, and one more
/// for a read that starts inside a byte.
pub const BUF_LEN: usize = 9;

/// The widest run of bits that one peek or read can take.
pub const MAX_READ_BITS: usize = 64;

/// Two streams agree on `n` bits from positions `p` and `q`.
pub open spec fn same_bits(a: Seq<u8>, p: nat, b: Seq<u8>, q: nat, n: nat) -> bool {
    forall|j: nat| j < n ==> #[trigger] stream_bit(a, p + j) == stream_bit(b, q + j)
}

proof fn lemma_same_bits_value(a: Seq<u8>, p: nat, b: Seq<u8>, q: nat, n: nat, order: BitOrder)
    requires
        same_bits(a, p, b, q, n),
    ensures
        bits_value(a, p, n, order) == bits_value(b, q, n, order),
    decreases n,
{
    if n > 0 {
        let m = (n - 1) as nat;
        assert(same_bits(a, p, b, q, m));
        lemma_same_bits_value(a, p, b, q, m, order);
        assert(stream_bit(a, p + m) == stream_bit(b, q + m));
        assert((p + n - 1) as nat == p + m);
        assert((q + n - 1) as nat == q + m);
    }
}

/// Reads a byte sequence bit by bit, through a lookahead buffer of `BUF_LEN` bytes that is
/// filled on demand and compacted when the bytes already read must make room.
pub struct BitStream<'a> {
    inner: &'a [u8],
    src_pos: usize,
    buf: Vec<u8>,
    read_bit_pos: usize,
    load_byte_pos: usize,
}

impl<'a> BitStream<'a> {
    /// The bytes that the stream reads.
    pub closed spec fn data(&self) -> Seq<u8> {
        self.inner@
    }

    /// How many bits of `data()` have been consumed.
    pub closed spec fn pos(&self) -> nat {
        (8 * (self.src_pos - self.load_byte_pos) + self.read_bit_pos) as nat
    }

    /// The buffer holds the bytes of the input that precede `src_pos`, and the read position
    /// lies within them.
    pub closed spec fn wf(&self) -> bool {
        &&& self.buf@.len() == BUF_LEN
        &&& self.load_byte_pos <= BUF_LEN
        &&& self.load_byte_pos <= self.src_pos <= self.inner@.len()
        &&& self.read_bit_pos <= 8 * self.load_byte_pos
        &&& forall|i: int|
            0 <= i < self.load_byte_pos ==> #[trigger] self.buf@[i] == self.inner@[self.src_pos
                - self.load_byte_pos + i]
    }

    /// Bits that the input holds after the read position.
    pub open spec fn remaining(&self) -> int {
        8 * self.data().len() - self.pos()
    }

    /// The read position never passes the end of the input.
    pub proof fn lemma_pos_bound(&self)
        requires
            self.wf(),
        ensures
            self.pos() <= 8 * self.data().len(),
    {
        assert(self.pos() <= 8 * self.data().len()) by (nonlinear_arith)
            requires
                self.pos() == 8 * (self.src_pos - self.load_byte_pos) + self.read_bit_pos,
                self.read_bit_pos <= 8 * self.load_byte_pos,
                self.src_pos <= self.inner@.len(),
                self.data() == self.inner@,
                self.load_byte_pos <= self.src_pos,
        ;
    }

    proof fn lemma_buffer_bits(&self, n: nat)
        requires
            self.wf(),
            self.read_bit_pos + n <= 8 * self.load_byte_pos,
        ensures
            same_bits(self.buf@, self.read_bit_pos as nat, self.inner@, self.pos(), n),
    {
        let base = (self.src_pos - self.load_byte_pos) as nat;
        assert forall|j: nat| j < n implies #[trigger] stream_bit(self.buf@, self.read_bit_pos as nat + j)
            == stream_bit(self.inner@, self.pos() + j) by {
            let k = self.read_bit_pos as nat + j;
            assert(self.pos() + j == 8 * base + k);
            assert((8 * base + k) / 8 == base + k / 8) by (nonlinear_arith);
            assert((8 * base + k) % 8 == k % 8) by (nonlinear_arith);
            assert(k / 8 < self.load_byte_pos) by (nonlinear_arith)
                requires
                    k < 8 * self.load_byte_pos,
            ;
            assert(self.buf@[(k / 8) as int] == self.inner@[(base + k / 8) as int]);
        }
    }

    pub fn new(inner: &'a [u8]) -> (r: BitStream<'a>)
        ensures
            r.wf(),
            r.data() == inner@,
            r.pos() == 0,
    {
        BitStream { inner, src_pos: 0, buf: vec![0u8; BUF_LEN], read_bit_pos: 0, load_byte_pos: 0 }
    }

    /// The next `n` bits in order `bo`, leaving them unconsumed. The stream may load more
    /// bytes into its buffer.
    pub fn peek_bits(&mut self, n: usize, bo: BitOrder) -> (r: Result<u64, DecodeError>)
        requires
            old(self).wf(),
            n <= MAX_READ_BITS,
        ensures
            final(self).wf(),
            final(self).data() == old(self).data(),
            final(self).pos() == old(self).pos(),
            match r {
                Ok(v) => n <= old(self).remaining() && v as nat == bits_value(
                    old(self).data(),
                    old(self).pos(),
                    n as nat,
                    bo,
                ),
                Err(e) => n > old(self).remaining() && e == DecodeError::UnexpectedEof,
            },
    {
        match self.ensure_readable_bits(n) {
            Err(e) => Err(e),
            Ok(()) => {
                proof {
                    self.lemma_buffer_bits(n as nat);
                    lemma_same_bits_value(self.buf@, self.read_bit_pos as nat, self.inner@, self.pos(), n as nat, bo);
                }
                Ok(n_bits_by_index(self.buf.as_slice(), n as u8, self.read_bit_pos, bo))
            },
        }
    }

    /// The next `n` bits in order `bo`, consumed.
    pub fn read_bits(&mut self, n: usize, bo: BitOrder) -> (r: Result<u64, DecodeError>)
        requires
            old(self).wf(),
            n <= MAX_READ_BITS,
        ensures
            final(self).wf(),
            final(self).data() == old(self).data(),
            match r {
                Ok(v) => n <= old(self).remaining() && v as nat == bits_value(
                    old(self).data(),
                    old(self).pos(),
                    n as nat,
                    bo,
                ) && final(self).pos() == old(self).pos() + n,
                Err(e) => n > old(self).remaining() && e == DecodeError::UnexpectedEof,
            },
    {
        match self.ensure_readable_bits(n) {
            Err(e) => Err(e),
            Ok(()) => {
                proof {
                    self.lemma_buffer_bits(n as nat);
                    lemma_same_bits_value(self.buf@, self.read_bit_pos as nat, self.inner@, self.pos(), n as nat, bo);
                }
                let v = n_bits_by_index(self.buf.as_slice(), n as u8, self.read_bit_pos, bo);
                self.read_bit_pos = self.read_bit_pos + n;
                Ok(v)
            },
        }
    }

    /// Consumes the next `n` bits.
    pub fn skip_bits(&mut self, n: usize) -> (r: Result<(), DecodeError>)
        requires
            old(self).wf(),
            n <= MAX_READ_BITS,
        ensures
            final(self).wf(),
            final(self).data() == old(self).data(),
            match r {
                Ok(()) => n <= old(self).remaining() && final(self).pos() == old(self).pos() + n,
                Err(e) => n > old(self).remaining() && e == DecodeError::UnexpectedEof,
            },
    {
        match self.ensure_readable_bits(n) {
            Ok(()) => {
                self.read_bit_pos = self.read_bit_pos + n;
                Ok(())
            },
            Err(e) => Err(e),
        }
    }

    /// Two bytes, least significant first, read from the next byte boundary on.
    #[verifier::rlimit(30)]
    pub fn read_u16_le(&mut self) -> (r: Result<u16, DecodeError>)
        requires
            old(self).wf(),
        ensures
            final(self).wf(),
            final(self).data() == old(self).data(),
            match r {
                Ok(v) => {
                    let a = next_boundary(old(self).pos());
                    &&& a + 16 <= 8 * old(self).data().len()
                    &&& v == old(self).data()[(a / 8) as int] as nat + 256 * old(self).data()[(a / 8
                        + 1) as int] as nat
                    &&& final(self).pos() == a + 16
                },
                Err(e) => next_boundary(old(self).pos()) + 16 > 8 * old(self).data().len() && e
                    == DecodeError::UnexpectedEof,
            },
    {
        let ghost a = next_boundary(self.pos());
        let lo = match self.read_next_byte() {
            Ok(b) => b,
            Err(e) => {
                return Err(e);
            },
        };
        proof {
            lemma_boundary_step(a);
        }
        let hi = match self.read_next_byte() {
            Ok(b) => b,
            Err(e) => {
                return Err(e);
            },
        };
        Ok(lo as u16 + 256 * hi as u16)
    }

    /// Skips to the start of the next byte: up to eight bits, and a whole byte where the
    /// read position is at a byte boundary already.
    pub fn skip_to_next_byte(&mut self) -> (r: Result<(), DecodeError>)
        requires
            old(self).wf(),
        ensures
            final(self).wf(),
            final(self).data() == old(self).data(),
            match r {
                Ok(()) => {
                    &&& old(self).pos() + 8 - old(self).pos() % 8 <= 8 * old(self).data().len()
                    &&& final(self).pos() == old(self).pos() + 8 - old(self).pos() % 8
                },
                Err(e) => old(self).pos() + 8 - old(self).pos() % 8 > 8 * old(self).data().len()
                    && e == DecodeError::UnexpectedEof,
            },
    {
        proof {
            self.lemma_pos_mod();
        }
        self.skip_bits(8 - (self.read_bit_pos % 8))
    }

    /// Skips to the start of the next byte unless the read position is at a byte boundary.
    pub fn skip_to_start_of_byte(&mut self) -> (r: Result<(), DecodeError>)
        requires
            old(self).wf(),
        ensures
            final(self).wf(),
            final(self).data() == old(self).data(),
            match r {
                Ok(()) => next_boundary(old(self).pos()) <= 8 * old(self).data().len()
                    && final(self).pos() == next_boundary(old(self).pos()),
                Err(e) => next_boundary(old(self).pos()) > 8 * old(self).data().len() && e
                    == DecodeError::UnexpectedEof,
            },
    {
        proof {
            self.lemma_pos_mod();
        }
        if !self.is_at_byte_boundary() {
            self.skip_to_next_byte()
        } else {
            proof {
                assert(self.pos() % 8 == 0);
                assert(self.pos() <= 8 * self.data().len()) by (nonlinear_arith)
                    requires
                        self.pos() == 8 * (self.src_pos - self.load_byte_pos) + self.read_bit_pos,
                        self.read_bit_pos <= 8 * self.load_byte_pos,
                        self.src_pos <= self.inner@.len(),
                        self.data() == self.inner@,
                ;
            }
            Ok(())
        }
    }

    /// The next whole byte, read from the next byte boundary on.
    pub fn read_next_byte(&mut self) -> (r: Result<u8, DecodeError>)
        requires
            old(self).wf(),
        ensures
            final(self).wf(),
            final(self).data() == old(self).data(),
            match r {
                Ok(b) => {
                    let a = next_boundary(old(self).pos());
                    &&& a + 8 <= 8 * old(self).data().len()
                    &&& b == old(self).data()[(a / 8) as int]
                    &&& final(self).pos() == a + 8
                },
                Err(e) => next_boundary(old(self).pos()) + 8 > 8 * old(self).data().len() && e
                    == DecodeError::UnexpectedEof,
            },
    {
        match self.skip_to_start_of_byte() {
            Ok(()) => {},
            Err(e) => {
                return Err(e);
            },
        }
        match self.ensure_readable_bits(8) {
            Ok(()) => {},
            Err(e) => {
                return Err(e);
            },
        }
        proof {
            self.lemma_pos_mod();
            let k = self.read_bit_pos as nat;
            assert(k % 8 == 0);
            assert(k / 8 < self.load_byte_pos) by (nonlinear_arith)
                requires
                    k + 8 <= 8 * self.load_byte_pos,
            ;
            let base = (self.src_pos - self.load_byte_pos) as nat;
            assert((8 * base + k) / 8 == base + k / 8) by (nonlinear_arith);
        }
        let byte = self.buf[self.read_byte_pos()];
        self.read_bit_pos = self.read_bit_pos + 8;
        Ok(byte)
    }

    fn read_byte_pos(&self) -> (r: usize)
        ensures
            r == self.read_bit_pos / 8,
    {
        self.read_bit_pos / 8
    }

    proof fn lemma_pos_mod(&self)
        requires
            self.wf(),
        ensures
            self.pos() % 8 == self.read_bit_pos % 8,
    {
        let base = (self.src_pos - self.load_byte_pos) as nat;
        assert((8 * base + self.read_bit_pos) % 8 == self.read_bit_pos % 8) by (nonlinear_arith);
    }

    /// Loads the next `n` bytes of the input into the buffer.
    fn load_bytes(&mut self, n: usize) -> (r: Result<(), DecodeError>)
        requires
            old(self).wf(),
            old(self).load_byte_pos + n <= BUF_LEN,
        ensures
            final(self).wf(),
            final(self).data() == old(self).data(),
            final(self).pos() == old(self).pos(),
            match r {
                Ok(()) => final(self).load_byte_pos == old(self).load_byte_pos + n
                    && final(self).read_bit_pos == old(self).read_bit_pos,
                Err(e) => old(self).src_pos + n > old(self).inner@.len() && e
                    == DecodeError::UnexpectedEof,
            },
    {
        if n > self.inner.len() - self.src_pos {
            return Err(DecodeError::UnexpectedEof);
        }
        let total = self.inner.len();
        let mut i: usize = 0;
        while i < n
            invariant
                0 <= i <= n,
                total == self.inner@.len(),
                self.src_pos + n <= total,
                self.load_byte_pos + n <= BUF_LEN,
                self.src_pos + n <= self.inner@.len(),
                self.buf@.len() == BUF_LEN,
                self.inner@ == old(self).inner@,
                self.src_pos == old(self).src_pos,
                self.load_byte_pos == old(self).load_byte_pos,
                self.read_bit_pos == old(self).read_bit_pos,
                old(self).wf(),
                forall|j: int|
                    0 <= j < self.load_byte_pos ==> #[trigger] self.buf@[j] == old(self).buf@[j],
                forall|j: int|
                    0 <= j < i ==> #[trigger] self.buf@[self.load_byte_pos + j] == self.inner@[self.src_pos + j],
            decreases n - i,
        {
            let b = self.inner[self.src_pos + i];
            self.buf.set(self.load_byte_pos + i, b);
            i = i + 1;
        }
        proof {
            assert forall|j: int| 0 <= j < self.load_byte_pos + n implies #[trigger] self.buf@[j]
                == self.inner@[self.src_pos + n - (self.load_byte_pos + n) + j] by {
                if j >= self.load_byte_pos {
                    assert(self.buf@[self.load_byte_pos + (j - self.load_byte_pos)] == self.inner@[self.src_pos + (j - self.load_byte_pos)]);
                }
            }
        }
        self.src_pos = self.src_pos + n;
        self.load_byte_pos = self.load_byte_pos + n;
        Ok(())
    }

    /// Discards the bytes already read, moving the read position into the first byte of the
    /// buffer.
    fn rewind_buffer(&mut self)
        requires
            old(self).wf(),
        ensures
            final(self).wf(),
            final(self).data() == old(self).data(),
            final(self).pos() == old(self).pos(),
            final(self).read_bit_pos < 8,
            final(self).src_pos == old(self).src_pos,
    {
        let read_byte_pos = self.read_byte_pos();
        if read_byte_pos == 0 {
            return;
        }
        let load = self.load_byte_pos;
        if read_byte_pos < load {
            let mut i: usize = read_byte_pos;
            while i < load
                invariant
                    read_byte_pos <= i <= load,
                    load == self.load_byte_pos,
                    read_byte_pos == self.read_bit_pos / 8,
                    self.buf@.len() == BUF_LEN,
                    self.inner@ == old(self).inner@,
                    self.src_pos == old(self).src_pos,
                    self.load_byte_pos == old(self).load_byte_pos,
                    self.read_bit_pos == old(self).read_bit_pos,
                    old(self).wf(),
                    forall|j: int| i <= j < load ==> #[trigger] self.buf@[j] == old(self).buf@[j],
                    forall|j: int|
                        0 <= j < i - read_byte_pos ==> #[trigger] self.buf@[j] == old(self).buf@[j
                            + read_byte_pos],
                decreases load - i,
            {
                let b = self.buf[i];
                self.buf.set(i - read_byte_pos, b);
                i = i + 1;
            }
        }
        proof {
            assert(read_byte_pos <= load) by (nonlinear_arith)
                requires
                    read_byte_pos == self.read_bit_pos / 8,
                    self.read_bit_pos <= 8 * load,
            ;
        }
        let rbp = self.read_bit_pos;
        proof {
            assert(rbp == 8 * read_byte_pos + rbp % 8) by (nonlinear_arith)
                requires
                    read_byte_pos == rbp / 8,
            ;
        }
        self.read_bit_pos = self.read_bit_pos % 8;
        self.load_byte_pos = self.load_byte_pos - read_byte_pos;
    }

    /// Bits loaded into the buffer and not yet read.
    fn readable_bits(&self) -> (r: usize)
        requires
            self.wf(),
        ensures
            r == 8 * self.load_byte_pos - self.read_bit_pos,
    {
        8 * self.load_byte_pos - self.read_bit_pos
    }

    /// Bits of free space at the end of the buffer.
    fn loadable_bits(&self) -> (r: usize)
        requires
            self.wf(),
        ensures
            r == 8 * (BUF_LEN - self.load_byte_pos),
    {
        8 * (BUF_LEN - self.load_byte_pos)
    }

    fn can_read_from_current_buf(&self, n: usize) -> (r: bool)
        requires
            self.wf(),
        ensures
            r == (n <= 8 * self.load_byte_pos - self.read_bit_pos),
    {
        n <= self.readable_bits()
    }

    /// Whether the read position is at the start of a byte.
    pub fn is_at_byte_boundary(&self) -> (r: bool)
        requires
            self.wf(),
        ensures
            r == (self.pos() % 8 == 0),
    {
        proof {
            self.lemma_pos_mod();
        }
        self.read_bit_pos % 8 == 0
    }

    /// Makes the next `n` bits readable from the buffer, loading (and first compacting) as
    /// needed.
    fn ensure_readable_bits(&mut self, n: usize) -> (r: Result<(), DecodeError>)
        requires
            old(self).wf(),
            n <= MAX_READ_BITS,
        ensures
            final(self).wf(),
            final(self).data() == old(self).data(),
            final(self).pos() == old(self).pos(),
            match r {
                Ok(()) => n <= old(self).remaining() && final(self).read_bit_pos + n <= 8
                    * final(self).load_byte_pos,
                Err(e) => n > old(self).remaining() && e == DecodeError::UnexpectedEof,
            },
    {
        if !self.can_read_from_current_buf(n) {
            if self.loadable_bits() < n - self.readable_bits() {
                self.rewind_buffer();
            }
            let bits_to_read = n - self.readable_bits();
            let k = (bits_to_read + 7) / 8;
            proof {
                assert(self.load_byte_pos + k <= BUF_LEN) by (nonlinear_arith)
                    requires
                        bits_to_read <= 8 * (BUF_LEN - self.load_byte_pos),
                        k == (bits_to_read + 7) / 8,
                ;
            }
            let loaded = self.load_bytes(k);
            proof {
                let base = (old(self).src_pos - old(self).load_byte_pos) as nat;
                assert(self.pos() == old(self).pos());
                assert(8 * k >= bits_to_read && 8 * k < bits_to_read + 8) by (nonlinear_arith)
                    requires
                        k == (bits_to_read + 7) / 8,
                ;
            }
            match loaded {
                Ok(()) => {
                    proof {
                        assert(self.pos() + n <= 8 * self.src_pos);
                        assert(self.src_pos <= self.inner@.len());
                    }
                    Ok(())
                },
                Err(e) => {
                    proof {
                        assert(self.pos() + n > 8 * self.inner@.len());
                    }
                    Err(e)
                },
            }
        } else {
            proof {
                assert(self.pos() + n <= 8 * self.src_pos);
            }
            Ok(())
        }
    }

    /// The input that the stream reads.
    pub fn get_ref(&self) -> (r: &'a [u8])
        ensures
            r@ == self.data(),
    {
        self.inner
    }

    /// The input that the stream reads, with the stream itself consumed.
    pub fn into_inner(self) -> (r: &'a [u8])
        ensures
            r@ == self.data(),
    {
        self.inner
    }
}

proof fn lemma_boundary_step(a: nat)
    ensures
        a % 8 == 0 ==> next_boundary(a + 8) == a + 8 && (a + 8) / 8 == a / 8 + 1,
{
}

/// The first byte boundary at or after bit `pos`.
pub open spec fn next_boundary(pos: nat) -> nat {
    if pos % 8 == 0 {
        pos
    } else {
        (pos + 8 - pos % 8) as nat
    }
}

} // verus!
