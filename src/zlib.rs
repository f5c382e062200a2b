//! The zlib container (RFC 1950): a two-byte header in front of a DEFLATE stream.
//!
//! The Adler-32 check value that follows the DEFLATE stream is not verified.
use vstd::prelude::*;
use vstd::arithmetic::power2::pow2;
use crate::deflate::{decompress_blocks, inflate_from};
use crate::error::DecodeError;

verus! {

/// The compression method of a CMF byte.
#[derive(PartialEq, Eq, Debug, Clone, Copy, Structural)]
pub enum CompressionMethod {
    /// Method 8, with the window size that CINFO gives.
    Deflate { window_size: u32 },
    Unknown,
}

impl CompressionMethod {
    /// Reads CM (the low four bits) and CINFO (the high four bits) of a CMF byte.
    pub fn from_cmf(b: u8) -> (r: CompressionMethod)
        ensures
            r == if b % 16 == 8 {
                CompressionMethod::Deflate { window_size: pow2((b / 16 + 8) as nat) as u32 }
            } else {
                CompressionMethod::Unknown
            },
    {
        let cm = b % 16;
        let cinfo = b / 16;
        if cm == 8 {
            proof {
                vstd::arithmetic::power2::lemma2_to64();
                vstd::arithmetic::power2::lemma_pow2_strictly_increases((cinfo + 8) as nat, 32);
                vstd::bits::lemma_u32_shl_is_mul(1, (cinfo + 8) as u32);
            }
            CompressionMethod::Deflate { window_size: 1u32 << (cinfo as u32 + 8) }
        } else {
            CompressionMethod::Unknown
        }
    }
}

#[derive(PartialEq, Eq, Debug, Clone, Copy, Structural)]
pub enum CompressionLevel {
    Level1,
    Level2,
    Level3,
    Level4,
}

/// The fields of an FLG byte.
#[derive(PartialEq, Eq, Debug, Clone, Copy, Structural)]
pub struct Flags {
    pub preset_dictionary: bool,
    pub compression_level: CompressionLevel,
}

impl Flags {
    /// Reads FDICT (bit 5) and FLEVEL (bits 6 and 7) of an FLG byte.
    pub fn from_flg(b: u8) -> (r: Flags)
        ensures
            r.preset_dictionary == ((b / 32) % 2 == 1),
            r.compression_level == if b / 64 == 0 {
                CompressionLevel::Level1
            } else if b / 64 == 1 {
                CompressionLevel::Level2
            } else if b / 64 == 2 {
                CompressionLevel::Level3
            } else {
                CompressionLevel::Level4
            },
    {
        let preset_dictionary = (b / 32) % 2 == 1;
        let flevel = b / 64;
        let compression_level = if flevel == 0 {
            CompressionLevel::Level1
        } else if flevel == 1 {
            CompressionLevel::Level2
        } else if flevel == 2 {
            CompressionLevel::Level3
        } else {
            CompressionLevel::Level4
        };
        Flags { preset_dictionary, compression_level }
    }
}

/// The header check of RFC 1950: CMF and FLG, read as a big-endian 16-bit number, are a
/// multiple of 31.
pub open spec fn header_check(cmf: u8, flg: u8) -> bool {
    (256 * cmf as nat + flg as nat) % 31 == 0
}

pub fn check_cmf_flg(cmf: u8, flg: u8) -> (r: bool)
    ensures
        r == header_check(cmf, flg),
{
    (256 * cmf as u32 + flg as u32) % 31 == 0
}

/// Decompressing the zlib stream `data`, with `out` as the output so far.
pub open spec fn zlib_decompress(data: Seq<u8>, out: Seq<u8>) -> Result<Seq<u8>, DecodeError> {
    if data.len() < 2 {
        Err(DecodeError::UnexpectedEof)
    } else if !header_check(data[0], data[1]) {
        Err(DecodeError::BadHeaderCheck)
    } else if data[0] % 16 != 8 {
        Err(DecodeError::UnsupportedCompressionMethod)
    } else if (data[1] / 32) % 2 == 1 {
        Err(DecodeError::PresetDictionary)
    } else {
        inflate_from(data.subrange(2, data.len() as int), 0, out)
    }
}

/// A header whose check value fails refuses the stream, whatever comes after it: no DEFLATE
/// data is looked at.
pub proof fn lemma_bad_header_refused(data: Seq<u8>, rest: Seq<u8>, out: Seq<u8>)
    requires
        data.len() >= 2,
        !header_check(data[0], data[1]),
    ensures
        zlib_decompress(data, out) == Err::<Seq<u8>, DecodeError>(DecodeError::BadHeaderCheck),
        zlib_decompress(data.take(2) + rest, out) == Err::<Seq<u8>, DecodeError>(
            DecodeError::BadHeaderCheck,
        ),
{
    let d2 = data.take(2) + rest;
    assert(d2[0] == data[0] && d2[1] == data[1]);
}

/// Checks the zlib header of `in_bytes` and decompresses the DEFLATE stream after it,
/// appending what it decodes to `out_buf`. A header that fails its check is refused before
/// any decoding.
pub fn decompress(in_bytes: &[u8], out_buf: &mut Vec<u8>) -> (r: Result<(), DecodeError>)
    ensures
        match zlib_decompress(in_bytes@, old(out_buf)@) {
            Ok(o) => r is Ok && final(out_buf)@ == o,
            Err(e) => r == Err::<(), DecodeError>(e),
        },
        in_bytes@.len() >= 2 && !header_check(in_bytes@[0], in_bytes@[1]) ==> r
            == Err::<(), DecodeError>(DecodeError::BadHeaderCheck) && final(out_buf)@ == old(
            out_buf,
        )@,
{
    if in_bytes.len() < 2 {
        return Err(DecodeError::UnexpectedEof);
    }
    if !check_cmf_flg(in_bytes[0], in_bytes[1]) {
        return Err(DecodeError::BadHeaderCheck);
    }
    let compression_method = CompressionMethod::from_cmf(in_bytes[0]);
    let flags = Flags::from_flg(in_bytes[1]);
    match compression_method {
        CompressionMethod::Unknown => {
            return Err(DecodeError::UnsupportedCompressionMethod);
        },
        CompressionMethod::Deflate { .. } => {},
    }
    if flags.preset_dictionary {
        return Err(DecodeError::PresetDictionary);
    }
    let rest = slice_from(in_bytes, 2);
    decompress_blocks(rest, out_buf)
}

/// The bytes of `s` from index `start` on.
fn slice_from(s: &[u8], start: usize) -> (r: &[u8])
    requires
        start <= s@.len(),
    ensures
        r@ == s@.subrange(start as int, s@.len() as int),
{
    vstd::slice::slice_subrange(s, start, s.len())
}

} // verus!
