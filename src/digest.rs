//! Checksums over byte sequences: CRC-32 (as PNG uses it) and Adler-32 (as zlib uses it).
use vstd::prelude::*;

verus! {

/// The reversed CRC-32 polynomial.
pub const CRC_POLYNOMIAL: u32 = 0xedb88320;

/// `c` after `k` rounds of the bitwise CRC step.
pub open spec fn crc_rounds(c: u32, k: nat) -> u32
    decreases k,
{
    if k == 0 {
        c
    } else {
        let d = crc_rounds(c, (k - 1) as nat);
        if d & 1 != 0 {
            CRC_POLYNOMIAL ^ (d >> 1)
        } else {
            d >> 1
        }
    }
}

/// Entry `n` of the CRC-32 table.
pub open spec fn crc_table(n: u32) -> u32 {
    crc_rounds(n, 8)
}

/// The CRC register after byte `b`.
pub open spec fn crc_step(crc: u32, b: u8) -> u32 {
    crc_table((crc ^ b as u32) & 0xff) ^ (crc >> 8)
}

/// The CRC register after the bytes of `bytes`, from `crc` on.
pub open spec fn crc_fold(crc: u32, bytes: Seq<u8>) -> u32
    decreases bytes.len(),
{
    if bytes.len() == 0 {
        crc
    } else {
        crc_step(crc_fold(crc, bytes.drop_last()), bytes.last())
    }
}

/// The CRC-32 of `bytes`.
pub open spec fn crc32(bytes: Seq<u8>) -> u32 {
    crc_fold(0xffffffff, bytes) ^ 0xffffffff
}

/// Entry `n` of the CRC-32 table, computed bit by bit.
pub fn make_crc_table_entry(n: u32) -> (r: u32)
    ensures
        r == crc_table(n),
{
    let mut c = n;
    let mut k: u32 = 0;
    while k < 8
        invariant
            0 <= k <= 8,
            c == crc_rounds(n, k as nat),
        decreases 8 - k,
    {
        if c & 1 != 0 {
            c = CRC_POLYNOMIAL ^ (c >> 1);
        } else {
            c = c >> 1;
        }
        k = k + 1;
    }
    c
}

/// The CRC-32 table: entry `n` for each byte value `n`.
pub fn make_crc_table() -> (r: Vec<u32>)
    ensures
        r@.len() == 256,
        forall|n: int| 0 <= n < 256 ==> #[trigger] r@[n] == crc_table(n as u32),
{
    let mut table: Vec<u32> = Vec::new();
    let mut n: u32 = 0;
    while n < 256
        invariant
            0 <= n <= 256,
            table@.len() == n,
            forall|m: int| 0 <= m < n ==> #[trigger] table@[m] == crc_table(m as u32),
        decreases 256 - n,
    {
        table.push(make_crc_table_entry(n));
        n = n + 1;
    }
    table
}

/// A running CRC-32 with its table.
pub struct Crc32 {
    crc: u32,
    table: Vec<u32>,
}

impl Crc32 {
    /// The register value before the final inversion.
    pub closed spec fn register(&self) -> u32 {
        self.crc
    }

    pub closed spec fn wf(&self) -> bool {
        &&& self.table@.len() == 256
        &&& forall|n: int| 0 <= n < 256 ==> #[trigger] self.table@[n] == crc_table(n as u32)
    }

    pub fn new() -> (r: Crc32)
        ensures
            r.wf(),
            r.register() == 0xffffffff,
    {
        Crc32 { crc: 0xffffffff, table: make_crc_table() }
    }

    /// Adds byte `b` to the checksum.
    pub fn update(&mut self, b: u8)
        requires
            old(self).wf(),
        ensures
            final(self).wf(),
            final(self).register() == crc_step(old(self).register(), b),
    {
        let c = self.crc;
        let idx = (c ^ b as u32) & 0xff;
        proof {
            assert(idx < 256) by (bit_vector)
                requires
                    idx == (c ^ b as u32) & 0xff,
            ;
        }
        self.crc = self.table[idx as usize] ^ (self.crc >> 8);
    }

    /// Starts the checksum afresh.
    pub fn reset(&mut self)
        requires
            old(self).wf(),
        ensures
            final(self).wf(),
            final(self).register() == 0xffffffff,
    {
        self.crc = 0xffffffff;
    }

    /// The checksum of the bytes added since the start.
    pub fn digest(&self) -> (r: u32)
        ensures
            r == self.register() ^ 0xffffffff,
    {
        self.crc ^ 0xffffffff
    }
}

/// The CRC-32 of `bytes`.
pub fn crc32_of(bytes: &[u8]) -> (r: u32)
    ensures
        r == crc32(bytes@),
{
    let mut crc = Crc32::new();
    let mut i: usize = 0;
    while i < bytes.len()
        invariant
            0 <= i <= bytes@.len(),
            crc.wf(),
            crc.register() == crc_fold(0xffffffff, bytes@.take(i as int)),
        decreases bytes@.len() - i,
    {
        proof {
            assert(bytes@.take(i + 1).drop_last() =~= bytes@.take(i as int));
        }
        crc.update(bytes[i]);
        i = i + 1;
    }
    proof {
        assert(bytes@.take(i as int) =~= bytes@);
    }
    crc.digest()
}

/// Adler-32: two sums modulo 65521.
pub const ADLER_MODULUS: u32 = 65521;

/// The two sums of Adler-32 after the bytes of `bytes`, from `(a, b)` on.
pub open spec fn adler_fold(a: nat, b: nat, bytes: Seq<u8>) -> (nat, nat)
    decreases bytes.len(),
{
    if bytes.len() == 0 {
        (a, b)
    } else {
        let (a0, b0) = adler_fold(a, b, bytes.drop_last());
        let a1 = (a0 + bytes.last() as nat) % 65521;
        (a1, (b0 + a1) % 65521)
    }
}

/// The Adler-32 of `bytes`.
pub open spec fn adler32(bytes: Seq<u8>) -> nat {
    let (a, b) = adler_fold(1, 0, bytes);
    b * 65536 + a
}

/// A running Adler-32.
pub struct Adler32 {
    a: u32,
    b: u32,
}

impl Adler32 {
    /// The two sums.
    pub closed spec fn sums(&self) -> (nat, nat) {
        (self.a as nat, self.b as nat)
    }

    pub closed spec fn wf(&self) -> bool {
        self.a < ADLER_MODULUS && self.b < ADLER_MODULUS
    }

    pub fn new() -> (r: Adler32)
        ensures
            r.wf(),
            r.sums() == (1nat, 0nat),
    {
        Adler32 { a: 1, b: 0 }
    }

    /// Adds byte `byte` to the checksum.
    pub fn update(&mut self, byte: u8)
        requires
            old(self).wf(),
        ensures
            final(self).wf(),
            final(self).sums() == ({
                let a1 = (old(self).sums().0 + byte as nat) % 65521;
                (a1, (old(self).sums().1 + a1) % 65521)
            }),
    {
        self.a = (self.a + byte as u32) % ADLER_MODULUS;
        self.b = (self.b + self.a) % ADLER_MODULUS;
    }

    /// Starts the checksum afresh.
    pub fn reset(&mut self)
        ensures
            final(self).wf(),
            final(self).sums() == (1nat, 0nat),
    {
        self.a = 1;
        self.b = 0;
    }

    /// The checksum of the bytes added since the start.
    pub fn digest(&self) -> (r: u32)
        requires
            self.wf(),
        ensures
            r as nat == self.sums().1 * 65536 + self.sums().0,
    {
        self.b * 65536 + self.a
    }
}

/// The Adler-32 of `bytes`.
pub fn adler32_of(bytes: &[u8]) -> (r: u32)
    ensures
        r as nat == adler32(bytes@),
{
    let mut adler = Adler32::new();
    let mut i: usize = 0;
    while i < bytes.len()
        invariant
            0 <= i <= bytes@.len(),
            adler.wf(),
            adler.sums() == adler_fold(1, 0, bytes@.take(i as int)),
        decreases bytes@.len() - i,
    {
        proof {
            assert(bytes@.take(i + 1).drop_last() =~= bytes@.take(i as int));
        }
        adler.update(bytes[i]);
        i = i + 1;
    }
    proof {
        assert(bytes@.take(i as int) =~= bytes@);
    }
    adler.digest()
}

} // verus!
