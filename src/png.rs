//! The PNG container: signature, chunks, IHDR, and the reversal of scanline filters.
use vstd::prelude::*;
use crate::digest::{crc32, crc32_of};
use crate::error::DecodeError;
use crate::zlib::{decompress, zlib_decompress};

verus! {

/// The byte of `s` at `i`, or 0 where `i` lies outside `s`.
pub open spec fn at_or_zero(s: Seq<u8>, i: int) -> u8 {
    if 0 <= i < s.len() {
        s[i]
    } else {
        0
    }
}

/// The Paeth predictor of PNG: of `a` (left), `b` (up) and `c` (up-left), the one nearest to
/// `a + b - c`, ties going to `a`, then `b`.
pub open spec fn paeth(a: u8, b: u8, c: u8) -> u8 {
    let p = a as int + b as int - c as int;
    let pa = if p >= a { p - a } else { a - p };
    let pb = if p >= b { p - b } else { b - p };
    let pc = if p >= c { p - c } else { c - p };
    if pa <= pb && pa <= pc {
        a
    } else if pb <= pc {
        b
    } else {
        c
    }
}

/// The prediction that filter type `t` makes from the left, up and up-left bytes.
pub open spec fn predictor(t: u8, left: u8, up: u8, up_left: u8) -> u8 {
    if t == 1 {
        left
    } else if t == 2 {
        up
    } else if t == 3 {
        ((left as nat + up as nat) / 2) as u8
    } else if t == 4 {
        paeth(left, up, up_left)
    } else {
        0
    }
}

/// The first `n` bytes of the scanline that `filt` holds filtered with type `t`, given the
/// reconstructed scanline above it (`prior`, empty for the first row) and the stride `bpp`.
pub open spec fn unfilter_prefix(filt: Seq<u8>, prior: Seq<u8>, t: u8, bpp: nat, n: nat) -> Seq<u8>
    decreases n,
{
    if n == 0 {
        Seq::empty()
    } else {
        let prev = unfilter_prefix(filt, prior, t, bpp, (n - 1) as nat);
        let x = n - 1;
        prev.push(
            ((filt[x] as nat + predictor(
                t,
                at_or_zero(prev, x - bpp),
                at_or_zero(prior, x),
                at_or_zero(prior, x - bpp),
            ) as nat) % 256) as u8,
        )
    }
}

/// The scanline that `filt` holds filtered with type `t`.
pub open spec fn unfilter_row(filt: Seq<u8>, prior: Seq<u8>, t: u8, bpp: nat) -> Seq<u8> {
    unfilter_prefix(filt, prior, t, bpp, filt.len())
}

/// The scanline `raw` filtered with type `t`, given the scanline above it.
pub open spec fn filter_row(raw: Seq<u8>, prior: Seq<u8>, t: u8, bpp: nat) -> Seq<u8> {
    Seq::new(
        raw.len(),
        |x: int|
            ((raw[x] as int - predictor(
                t,
                at_or_zero(raw, x - bpp),
                at_or_zero(prior, x),
                at_or_zero(prior, x - bpp),
            ) as int) % 256) as u8,
    )
}

proof fn lemma_unfilter_prefix_len(filt: Seq<u8>, prior: Seq<u8>, t: u8, bpp: nat, n: nat)
    ensures
        unfilter_prefix(filt, prior, t, bpp, n).len() == n,
    decreases n,
{
    if n > 0 {
        lemma_unfilter_prefix_len(filt, prior, t, bpp, (n - 1) as nat);
    }
}

proof fn lemma_round_trip_prefix(raw: Seq<u8>, prior: Seq<u8>, t: u8, bpp: nat, n: nat)
    requires
        n <= raw.len(),
        bpp >= 1,
    ensures
        unfilter_prefix(filter_row(raw, prior, t, bpp), prior, t, bpp, n) == raw.take(n as int),
    decreases n,
{
    let filt = filter_row(raw, prior, t, bpp);
    if n == 0 {
        assert(raw.take(0) =~= Seq::<u8>::empty());
    } else {
        let m = (n - 1) as nat;
        lemma_round_trip_prefix(raw, prior, t, bpp, m);
        let prev = unfilter_prefix(filt, prior, t, bpp, m);
        let x = m as int;
        lemma_unfilter_prefix_len(filt, prior, t, bpp, m);
        assert(at_or_zero(prev, x - bpp) == at_or_zero(raw, x - bpp));
        let pred = predictor(t, at_or_zero(raw, x - bpp), at_or_zero(prior, x), at_or_zero(prior, x - bpp)) as int;
        let r = raw[x] as int;
        let f = ((r - pred) % 256) as u8;
        assert(filt[x] == f);
        assert(((f as int + pred) % 256) == r) by (nonlinear_arith)
            requires
                f == ((r - pred) % 256) as u8,
                0 <= r < 256,
                0 <= pred < 256,
        ;
        assert(raw.take(n as int) =~= raw.take(m as int).push(raw[x]));
    }
}

/// Reversing a filter undoes it: filtering a scanline with any of the five filter types and
/// then reversing that filter gives the scanline back, on the first row (`prior` empty) and on
/// any later one, for any stride of at least one byte.
pub proof fn lemma_filter_round_trip(raw: Seq<u8>, prior: Seq<u8>, t: u8, bpp: nat)
    requires
        bpp >= 1,
    ensures
        unfilter_row(filter_row(raw, prior, t, bpp), prior, t, bpp) == raw,
{
    lemma_round_trip_prefix(raw, prior, t, bpp, raw.len());
    assert(raw.take(raw.len() as int) =~= raw);
}

#[derive(PartialEq, Eq, Debug, Clone, Copy, Structural)]
pub enum BitDepth {
    Bits1,
    Bits2,
    Bits4,
    Bits8,
    Bits16,
    Invalid,
}

pub open spec fn bit_depth_of(b: u8) -> BitDepth {
    if b == 1 {
        BitDepth::Bits1
    } else if b == 2 {
        BitDepth::Bits2
    } else if b == 4 {
        BitDepth::Bits4
    } else if b == 8 {
        BitDepth::Bits8
    } else if b == 16 {
        BitDepth::Bits16
    } else {
        BitDepth::Invalid
    }
}

impl BitDepth {
    pub fn from_byte(b: u8) -> (r: BitDepth)
        ensures
            r == bit_depth_of(b),
    {
        if b == 1 {
            BitDepth::Bits1
        } else if b == 2 {
            BitDepth::Bits2
        } else if b == 4 {
            BitDepth::Bits4
        } else if b == 8 {
            BitDepth::Bits8
        } else if b == 16 {
            BitDepth::Bits16
        } else {
            BitDepth::Invalid
        }
    }
}

#[derive(PartialEq, Eq, Debug, Clone, Copy, Structural)]
pub enum ColorType {
    Grayscale,
    RGB,
    Palette,
    GrayscaleAlpha,
    RGBA,
    Invalid,
}

pub open spec fn color_type_of(b: u8) -> ColorType {
    if b == 0 {
        ColorType::Grayscale
    } else if b == 2 {
        ColorType::RGB
    } else if b == 3 {
        ColorType::Palette
    } else if b == 4 {
        ColorType::GrayscaleAlpha
    } else if b == 6 {
        ColorType::RGBA
    } else {
        ColorType::Invalid
    }
}

impl ColorType {
    pub fn from_byte(b: u8) -> (r: ColorType)
        ensures
            r == color_type_of(b),
    {
        if b == 0 {
            ColorType::Grayscale
        } else if b == 2 {
            ColorType::RGB
        } else if b == 3 {
            ColorType::Palette
        } else if b == 4 {
            ColorType::GrayscaleAlpha
        } else if b == 6 {
            ColorType::RGBA
        } else {
            ColorType::Invalid
        }
    }
}

/// Bytes per pixel of a color type at a bit depth; an error for palettes and for the pairs
/// that PNG does not allow.
pub open spec fn bytes_per_pixel_of(color_type: ColorType, bit_depth: BitDepth) -> Result<u32, DecodeError> {
    match (color_type, bit_depth) {
        (ColorType::Grayscale, BitDepth::Bits1) => Ok(1),
        (ColorType::Grayscale, BitDepth::Bits2) => Ok(1),
        (ColorType::Grayscale, BitDepth::Bits4) => Ok(1),
        (ColorType::Grayscale, BitDepth::Bits8) => Ok(1),
        (ColorType::Grayscale, BitDepth::Bits16) => Ok(2),
        (ColorType::RGB, BitDepth::Bits8) => Ok(3),
        (ColorType::RGB, BitDepth::Bits16) => Ok(6),
        (ColorType::Palette, _) => Err(DecodeError::PaletteUnsupported),
        (ColorType::GrayscaleAlpha, BitDepth::Bits8) => Ok(2),
        (ColorType::GrayscaleAlpha, BitDepth::Bits16) => Ok(4),
        (ColorType::RGBA, BitDepth::Bits8) => Ok(4),
        (ColorType::RGBA, BitDepth::Bits16) => Ok(8),
        _ => Err(DecodeError::InvalidBitDepthForColorType),
    }
}

pub fn bytes_per_pixel(color_type: &ColorType, bit_depth: &BitDepth) -> (r: Result<u32, DecodeError>)
    ensures
        r == bytes_per_pixel_of(*color_type, *bit_depth),
{
    match (color_type, bit_depth) {
        (ColorType::Grayscale, BitDepth::Bits1) => Ok(1),
        (ColorType::Grayscale, BitDepth::Bits2) => Ok(1),
        (ColorType::Grayscale, BitDepth::Bits4) => Ok(1),
        (ColorType::Grayscale, BitDepth::Bits8) => Ok(1),
        (ColorType::Grayscale, BitDepth::Bits16) => Ok(2),
        (ColorType::RGB, BitDepth::Bits8) => Ok(3),
        (ColorType::RGB, BitDepth::Bits16) => Ok(6),
        (ColorType::Palette, _) => Err(DecodeError::PaletteUnsupported),
        (ColorType::GrayscaleAlpha, BitDepth::Bits8) => Ok(2),
        (ColorType::GrayscaleAlpha, BitDepth::Bits16) => Ok(4),
        (ColorType::RGBA, BitDepth::Bits8) => Ok(4),
        (ColorType::RGBA, BitDepth::Bits16) => Ok(8),
        _ => Err(DecodeError::InvalidBitDepthForColorType),
    }
}

/// The fields of the IHDR chunk. The compression, filter and interlace methods are checked to
/// be 0 (deflate, adaptive filtering, no interlacing) when the chunk is read.
#[derive(PartialEq, Eq, Debug, Clone, Copy, Structural)]
pub struct Ihdr {
    pub width: u32,
    pub height: u32,
    pub bit_depth: BitDepth,
    pub color_type: ColorType,
    pub bytes_per_pixel: u32,
}

/// The Paeth predictor of `a` (left), `b` (up) and `c` (up-left).
pub fn paeth_predictor(a: u8, b: u8, c: u8) -> (r: u8)
    ensures
        r == paeth(a, b, c),
{
    let p: i32 = a as i32 + b as i32 - c as i32;
    let pa: i32 = if p >= a as i32 { p - a as i32 } else { a as i32 - p };
    let pb: i32 = if p >= b as i32 { p - b as i32 } else { b as i32 - p };
    let pc: i32 = if p >= c as i32 { p - c as i32 } else { c as i32 - p };
    if pa <= pb && pa <= pc {
        a
    } else if pb <= pc {
        b
    } else {
        c
    }
}

/// The prediction of filter type `t` from the left, up and up-left bytes.
fn predict(t: u8, left: u8, up: u8, up_left: u8) -> (r: u8)
    ensures
        r == predictor(t, left, up, up_left),
{
    if t == 1 {
        left
    } else if t == 2 {
        up
    } else if t == 3 {
        ((left as u16 + up as u16) / 2) as u8
    } else if t == 4 {
        paeth_predictor(left, up, up_left)
    } else {
        0
    }
}

/// The reconstructed byte `offset` bytes left of byte `x` of the scanline that starts at
/// `row_start` in `image`, or 0 left of the scanline.
fn raw(image: &Vec<u8>, row_start: usize, x: usize, offset: usize) -> (r: u8)
    requires
        row_start + x <= image@.len(),
        offset >= 1,
    ensures
        r == at_or_zero(image@.subrange(row_start as int, image@.len() as int), x - offset),
{
    let n = image.len();
    if x >= offset {
        image[row_start + (x - offset)]
    } else {
        0
    }
}

/// The reconstructed byte `offset` bytes left of byte `x` of the scanline above the one that
/// starts at `row_start`, or 0 on the first scanline or left of it.
fn prior(image: &Vec<u8>, row_start: usize, stride: usize, x: usize, offset: usize) -> (r: u8)
    requires
        row_start <= image@.len(),
        row_start == 0 || stride <= row_start,
        x < stride,
    ensures
        r == at_or_zero(prior_row(image@.subrange(0, row_start as int), stride as nat), x - offset),
{
    if row_start == 0 || x < offset {
        0
    } else {
        image[row_start - stride + x - offset]
    }
}

/// The scanline above the next one: the last `stride` bytes of `img`, none on the first row.
pub open spec fn prior_row(img: Seq<u8>, stride: nat) -> Seq<u8> {
    if img.len() == 0 || img.len() < stride {
        Seq::empty()
    } else {
        img.subrange(img.len() - stride, img.len() as int)
    }
}

/// Reverses filter type `t` on the `stride` bytes of `data` from `start` on, appending the
/// reconstructed scanline to `image`.
fn unfilter_scanline(image: &mut Vec<u8>, data: &[u8], start: usize, stride: usize, t: u8, bpp: usize)
    requires
        start + stride <= data@.len(),
        bpp >= 1,
        old(image)@.len() == 0 || stride <= old(image)@.len(),
        old(image)@.len() + stride <= usize::MAX,
    ensures
        final(image)@ == old(image)@ + unfilter_row(
            data@.subrange(start as int, start + stride),
            prior_row(old(image)@, stride as nat),
            t,
            bpp as nat,
        ),
{
    let ghost filt = data@.subrange(start as int, start + stride);
    let ghost base_img = image@;
    let ghost above = prior_row(base_img, stride as nat);
    let row_start = image.len();
    let dlen = data.len();
    let mut x: usize = 0;
    proof {
        assert(base_img + Seq::<u8>::empty() =~= base_img);
    }
    while x < stride
        invariant
            0 <= x <= stride,
            start + stride <= data@.len(),
            dlen == data@.len(),
            bpp >= 1,
            row_start == base_img.len(),
            row_start == 0 || stride <= row_start,
            row_start + stride <= usize::MAX,
            filt == data@.subrange(start as int, start + stride),
            above == prior_row(base_img, stride as nat),
            image@ == base_img + unfilter_prefix(filt, above, t, bpp as nat, x as nat),
        decreases stride - x,
    {
        let ghost prev = unfilter_prefix(filt, above, t, bpp as nat, x as nat);
        proof {
            lemma_unfilter_prefix_len(filt, above, t, bpp as nat, x as nat);
            assert(image@.subrange(row_start as int, image@.len() as int) =~= prev);
            assert(image@.subrange(0, row_start as int) =~= base_img);
        }
        let left = raw(image, row_start, x, bpp);
        let up = prior(image, row_start, stride, x, 0);
        let up_left = prior(image, row_start, stride, x, bpp);
        let predicted = predict(t, left, up, up_left);
        let value = ((data[start + x] as u16 + predicted as u16) % 256) as u8;
        image.push(value);
        proof {
            assert(image@ =~= base_img + unfilter_prefix(filt, above, t, bpp as nat, (x + 1) as nat));
        }
        x = x + 1;
    }
}

/// Reversing the filters of `rows` scanlines of `stride` bytes, each after its filter-type
/// byte, from the start of `data`.
pub open spec fn unfilter_image(data: Seq<u8>, stride: nat, bpp: nat, rows: nat) -> Result<Seq<u8>, DecodeError>
    decreases rows,
{
    if rows == 0 {
        Ok(Seq::empty())
    } else {
        match unfilter_image(data, stride, bpp, (rows - 1) as nat) {
            Err(e) => Err(e),
            Ok(img) => {
                let start = (rows - 1) * (stride + 1);
                let t = data[start as int];
                if t > 4 {
                    Err(DecodeError::InvalidFilterType)
                } else {
                    Ok(
                        img + unfilter_row(
                            data.subrange(start + 1, start + 1 + stride),
                            prior_row(img, stride),
                            t,
                            bpp,
                        ),
                    )
                }
            },
        }
    }
}

proof fn lemma_unfilter_image_len(data: Seq<u8>, stride: nat, bpp: nat, rows: nat)
    requires
        rows * (stride + 1) <= data.len(),
    ensures
        match unfilter_image(data, stride, bpp, rows) {
            Ok(img) => img.len() == rows * stride,
            Err(_) => true,
        },
    decreases rows,
{
    if rows > 0 {
        assert((rows - 1) * (stride + 1) + stride + 1 == rows * (stride + 1)) by (nonlinear_arith);
        assert((rows - 1) * (stride + 1) <= rows * (stride + 1)) by (nonlinear_arith);
        lemma_unfilter_image_len(data, stride, bpp, (rows - 1) as nat);
        match unfilter_image(data, stride, bpp, (rows - 1) as nat) {
            Ok(img) => {
                let start = (rows - 1) * (stride + 1);
                let filt = data.subrange(start + 1, start + 1 + stride);
                lemma_unfilter_prefix_len(filt, prior_row(img, stride), data[start as int], bpp, filt.len());
                assert((rows - 1) * stride + stride == rows * stride) by (nonlinear_arith);
                assert(filt.len() == stride);
                assert(img.len() == (rows - 1) * stride);
                if data[start as int] <= 4 {
                    assert(unfilter_image(data, stride, bpp, rows) == Ok::<Seq<u8>, DecodeError>(img + unfilter_row(filt, prior_row(img, stride), data[start as int], bpp)));
                }
            },
            Err(_) => {},
        }
    } else {
        assert(0 * stride == 0);
    }
}

proof fn lemma_unfilter_image_err(data: Seq<u8>, stride: nat, bpp: nat, k: nat, m: nat)
    requires
        k <= m,
        unfilter_image(data, stride, bpp, k) is Err,
    ensures
        unfilter_image(data, stride, bpp, m) == unfilter_image(data, stride, bpp, k),
    decreases m - k,
{
    if k < m {
        lemma_unfilter_image_err(data, stride, bpp, k, (m - 1) as nat);
    }
}

/// Reverses the scanline filters of the decompressed image data: `height` scanlines of
/// `width * bytes_per_pixel` bytes, each after its filter-type byte.
pub fn apply_filters(ihdr: &Ihdr, decompressed_data: &[u8]) -> (r: Result<Vec<u8>, DecodeError>)
    requires
        ihdr.bytes_per_pixel >= 1,
        ihdr.height as nat * (ihdr.width as nat * ihdr.bytes_per_pixel as nat + 1) <= decompressed_data@.len(),
        ihdr.height as nat * (ihdr.width as nat * ihdr.bytes_per_pixel as nat + 1) <= usize::MAX,
    ensures
        match unfilter_image(decompressed_data@, ihdr.width as nat * ihdr.bytes_per_pixel as nat, ihdr.bytes_per_pixel as nat, ihdr.height as nat) {
            Ok(img) => r matches Ok(v) && v@ == img,
            Err(e) => r == Err::<Vec<u8>, DecodeError>(e),
        },
{
    let ghost data = decompressed_data@;
    let ghost h = ihdr.height as nat;
    let ghost w = ihdr.width as nat;
    let ghost b = ihdr.bytes_per_pixel as nat;
    proof {
        assert(w * b <= h * (w * b + 1) || h == 0) by (nonlinear_arith)
            requires
                h >= 0,
        ;
        if h > 0 {
            assert(w * b + 1 <= h * (w * b + 1)) by (nonlinear_arith)
                requires
                    h >= 1,
            ;
        }
    }
    let bpp = ihdr.bytes_per_pixel as usize;
    let height = ihdr.height as usize;
    let stride: usize = if height == 0 { 0 } else { ihdr.width as usize * bpp };
    let ghost s = stride as nat;
    let mut image: Vec<u8> = Vec::new();
    let mut row: usize = 0;
    let mut row_start: usize = 0;
    while row < height
        invariant
            0 <= row <= height,
            height == h,
            w == ihdr.width as nat,
            b == ihdr.bytes_per_pixel as nat,
            h == ihdr.height as nat,
            bpp as nat == b,
            bpp >= 1,
            h > 0 ==> s == w * b,
            s == stride,
            data == decompressed_data@,
            h * (s + 1) <= data.len(),
            h * (s + 1) <= usize::MAX,
            row_start == row * (s + 1),
            image@.len() == row * s,
            unfilter_image(data, s, b, row as nat) == Ok::<Seq<u8>, DecodeError>(image@),
        decreases height - row,
    {
        proof {
            assert((row + 1) * (s + 1) <= h * (s + 1)) by (nonlinear_arith)
                requires
                    row + 1 <= h,
            ;
            assert((row + 1) * (s + 1) == row_start + s + 1) by (nonlinear_arith)
                requires
                    row_start == row * (s + 1),
            ;
            assert(row * s + s <= h * (s + 1)) by (nonlinear_arith)
                requires
                    row + 1 <= h,
            ;
            if row > 0 {
                assert(s <= row * s) by (nonlinear_arith)
                    requires
                        row >= 1,
                ;
            }
        }
        let t = decompressed_data[row_start];
        if t > 4 {
            proof {
                assert(row_start == ((row + 1) - 1) * (s + 1));
                assert(unfilter_image(data, s, b, (row + 1) as nat) == Err::<Seq<u8>, DecodeError>(DecodeError::InvalidFilterType));
                assert(s == w * b);
                lemma_unfilter_image_err(data, s, b, (row + 1) as nat, h);
            }
            return Err(DecodeError::InvalidFilterType);
        }
        let ghost before = image@;
        unfilter_scanline(&mut image, decompressed_data, row_start + 1, stride, t, bpp);
        proof {
            lemma_unfilter_prefix_len(data.subrange(row_start + 1, row_start + 1 + s), prior_row(before, s), t, b, s);
            assert((row + 1) * s == row * s + s) by (nonlinear_arith);
            assert(row_start == ((row + 1) - 1) * (s + 1));
        }
        row = row + 1;
        row_start = row_start + stride + 1;
    }
    proof {
        if h == 0 {
            assert(unfilter_image(data, w * b, b, 0) == unfilter_image(data, s, b, 0));
        }
    }
    Ok(image)
}

/// The big-endian 32-bit value of the four bytes at `i`.
pub open spec fn u32_be(data: Seq<u8>, i: int) -> nat {
    data[i] as nat * 16777216 + data[i + 1] as nat * 65536 + data[i + 2] as nat * 256 + data[i + 3] as nat
}

/// The chunk type codes: the four ASCII letters read as a big-endian number.
pub const IHDR_CODE: u32 = 0x49484452;
pub const PLTE_CODE: u32 = 0x504c5445;
pub const IDAT_CODE: u32 = 0x49444154;
pub const IEND_CODE: u32 = 0x49454e44;

#[derive(PartialEq, Eq, Debug, Clone, Copy, Structural)]
pub enum ChunkType {
    IHDR,
    PLTE,
    IDAT,
    IEND,
    /// Any other chunk, with its type code.
    Ancillary(u32),
}

pub open spec fn chunk_type_of(code: u32) -> ChunkType {
    if code == IHDR_CODE {
        ChunkType::IHDR
    } else if code == PLTE_CODE {
        ChunkType::PLTE
    } else if code == IDAT_CODE {
        ChunkType::IDAT
    } else if code == IEND_CODE {
        ChunkType::IEND
    } else {
        ChunkType::Ancillary(code)
    }
}

/// The eight bytes that every PNG file starts with.
pub open spec fn is_signature(data: Seq<u8>) -> bool {
    &&& data.len() >= 8
    &&& data[0] == 0x89 && data[1] == 0x50 && data[2] == 0x4e && data[3] == 0x47
    &&& data[4] == 0x0d && data[5] == 0x0a && data[6] == 0x1a && data[7] == 0x0a
}

/// Whether the chunk at `pos`, with `len` data bytes, carries the CRC-32 of its type and data.
pub open spec fn chunk_crc_ok(data: Seq<u8>, pos: int, len: nat) -> bool {
    crc32(data.subrange(pos + 4, pos + 8 + len)) == u32_be(data, pos + 8 + len)
}

/// The IHDR chunk, which must come first, at byte 8.
pub open spec fn ihdr_of(data: Seq<u8>, strict: bool) -> Result<Ihdr, DecodeError> {
    if data.len() < 16 {
        Err(DecodeError::UnexpectedEof)
    } else if u32_be(data, 12) != IHDR_CODE {
        Err(DecodeError::FirstChunkNotIhdr)
    } else if u32_be(data, 8) != 13 {
        Err(DecodeError::BadIhdrLength)
    } else if data.len() < 33 {
        Err(DecodeError::UnexpectedEof)
    } else {
        match bytes_per_pixel_of(color_type_of(data[25]), bit_depth_of(data[24])) {
            Err(e) => Err(e),
            Ok(bpp) => if data[26] != 0 {
                Err(DecodeError::UnknownCompressionMethod)
            } else if data[27] != 0 {
                Err(DecodeError::UnknownFilterMethod)
            } else if data[28] > 1 {
                Err(DecodeError::UnknownInterlaceMethod)
            } else if data[28] == 1 {
                Err(DecodeError::InterlaceUnsupported)
            } else if strict && !chunk_crc_ok(data, 8, 13) {
                Err(DecodeError::CrcMismatch)
            } else {
                Ok(
                    Ihdr {
                        width: u32_be(data, 16) as u32,
                        height: u32_be(data, 20) as u32,
                        bit_depth: bit_depth_of(data[24]),
                        color_type: color_type_of(data[25]),
                        bytes_per_pixel: bpp,
                    },
                )
            },
        }
    }
}

/// The IDAT data of the chunks from byte `pos` on, added to `acc`, up to the IEND chunk.
pub open spec fn idat_from(data: Seq<u8>, pos: nat, acc: Seq<u8>, strict: bool) -> Result<Seq<u8>, DecodeError>
    decreases data.len() - pos,
{
    if pos + 8 > data.len() {
        Err(DecodeError::UnexpectedEof)
    } else {
        let len = u32_be(data, pos as int);
        let ty = chunk_type_of(u32_be(data, pos + 4int) as u32);
        let end = pos + 12 + len;
        if ty == ChunkType::IEND {
            Ok(acc)
        } else if ty == ChunkType::PLTE {
            Err(DecodeError::PaletteUnsupported)
        } else if ty == ChunkType::IHDR {
            Err(DecodeError::SecondIhdr)
        } else if end > data.len() {
            Err(DecodeError::UnexpectedEof)
        } else if strict && !chunk_crc_ok(data, pos as int, len) {
            Err(DecodeError::CrcMismatch)
        } else {
            idat_from(
                data,
                end,
                if ty == ChunkType::IDAT {
                    acc + data.subrange(pos + 8int, pos + 8int + len)
                } else {
                    acc
                },
                strict,
            )
        }
    }
}

/// Decoding the PNG file `data`: its header and its pixel bytes.
pub open spec fn png_decode(data: Seq<u8>, strict: bool) -> Result<(Ihdr, Seq<u8>), DecodeError> {
    if data.len() < 8 {
        Err(DecodeError::UnexpectedEof)
    } else if !is_signature(data) {
        Err(DecodeError::BadSignature)
    } else {
        match ihdr_of(data, strict) {
            Err(e) => Err(e),
            Ok(h) => match idat_from(data, 33, Seq::empty(), strict) {
                Err(e) => Err(e),
                Ok(z) => match image_of(h, z) {
                    Err(e) => Err(e),
                    Ok(img) => Ok((h, img)),
                },
            },
        }
    }
}

/// The pixel bytes of an image with header `h` whose IDAT data are `z`.
pub open spec fn image_of(h: Ihdr, z: Seq<u8>) -> Result<Seq<u8>, DecodeError> {
    match zlib_decompress(z, Seq::empty()) {
        Err(e) => Err(e),
        Ok(raw) => {
            let stride = h.width as nat * h.bytes_per_pixel as nat;
            if h.height as nat * (stride + 1) > usize::MAX {
                Err(DecodeError::ImageTooLarge)
            } else if raw.len() < h.height as nat * (stride + 1) {
                Err(DecodeError::ImageDataTooShort)
            } else {
                unfilter_image(raw, stride, h.bytes_per_pixel as nat, h.height as nat)
            }
        },
    }
}

/// The big-endian 32-bit value at byte `pos`.
pub fn read_u32(bytes: &[u8], pos: usize) -> (r: Result<u32, DecodeError>)
    ensures
        match r {
            Ok(v) => pos + 4 <= bytes@.len() && v as nat == u32_be(bytes@, pos as int),
            Err(e) => pos + 4 > bytes@.len() && e == DecodeError::UnexpectedEof,
        },
{
    if pos > bytes.len() || bytes.len() - pos < 4 {
        return Err(DecodeError::UnexpectedEof);
    }
    Ok(
        bytes[pos] as u32 * 16777216 + bytes[pos + 1] as u32 * 65536 + bytes[pos + 2] as u32 * 256
            + bytes[pos + 3] as u32,
    )
}

/// The byte at `pos`.
pub fn read_u8(bytes: &[u8], pos: usize) -> (r: Result<u8, DecodeError>)
    ensures
        match r {
            Ok(v) => pos < bytes@.len() && v == bytes@[pos as int],
            Err(e) => pos >= bytes@.len() && e == DecodeError::UnexpectedEof,
        },
{
    if pos >= bytes.len() {
        return Err(DecodeError::UnexpectedEof);
    }
    Ok(bytes[pos])
}

/// Checks the eight signature bytes.
pub fn read_png_header(bytes: &[u8]) -> (r: Result<(), DecodeError>)
    ensures
        r == if bytes@.len() < 8 {
            Err::<(), DecodeError>(DecodeError::UnexpectedEof)
        } else if !is_signature(bytes@) {
            Err(DecodeError::BadSignature)
        } else {
            Ok(())
        },
{
    if bytes.len() < 8 {
        return Err(DecodeError::UnexpectedEof);
    }
    if bytes[0] != 0x89 || bytes[1] != 0x50 || bytes[2] != 0x4e || bytes[3] != 0x47 || bytes[4]
        != 0x0d || bytes[5] != 0x0a || bytes[6] != 0x1a || bytes[7] != 0x0a {
        return Err(DecodeError::BadSignature);
    }
    Ok(())
}

/// The type of the chunk whose type code is at byte `pos`.
pub fn read_chunk_type(bytes: &[u8], pos: usize) -> (r: Result<ChunkType, DecodeError>)
    ensures
        match r {
            Ok(t) => pos + 4 <= bytes@.len() && t == chunk_type_of(u32_be(bytes@, pos as int) as u32),
            Err(e) => pos + 4 > bytes@.len() && e == DecodeError::UnexpectedEof,
        },
{
    let code = match read_u32(bytes, pos) {
        Ok(c) => c,
        Err(e) => {
            return Err(e);
        },
    };
    if code == IHDR_CODE {
        Ok(ChunkType::IHDR)
    } else if code == PLTE_CODE {
        Ok(ChunkType::PLTE)
    } else if code == IDAT_CODE {
        Ok(ChunkType::IDAT)
    } else if code == IEND_CODE {
        Ok(ChunkType::IEND)
    } else {
        Ok(ChunkType::Ancillary(code))
    }
}

/// The data length and the type of the chunk at byte `pos`.
pub fn read_chunk_length_and_type(bytes: &[u8], pos: usize) -> (r: Result<(u32, ChunkType), DecodeError>)
    ensures
        match r {
            Ok((len, t)) => pos + 8 <= bytes@.len() && len as nat == u32_be(bytes@, pos as int) && t
                == chunk_type_of(u32_be(bytes@, pos + 4) as u32),
            Err(e) => pos + 8 > bytes@.len() && e == DecodeError::UnexpectedEof,
        },
{
    if pos > bytes.len() || bytes.len() - pos < 8 {
        return Err(DecodeError::UnexpectedEof);
    }
    let length = match read_u32(bytes, pos) {
        Ok(l) => l,
        Err(e) => {
            return Err(e);
        },
    };
    match read_chunk_type(bytes, pos + 4) {
        Ok(t) => Ok((length, t)),
        Err(e) => Err(e),
    }
}

/// Checks the CRC-32 of the chunk at byte `pos` with `length` data bytes. A mismatch is an
/// error only when `strict`.
pub fn check_crc(bytes: &[u8], pos: usize, length: usize, strict: bool) -> (r: Result<(), DecodeError>)
    requires
        pos + 12 + length <= bytes@.len(),
    ensures
        r == if strict && !chunk_crc_ok(bytes@, pos as int, length as nat) {
            Err::<(), DecodeError>(DecodeError::CrcMismatch)
        } else {
            Ok(())
        },
{
    let n = bytes.len();
    if !strict {
        return Ok(());
    }
    let covered = vstd::slice::slice_subrange(bytes, pos + 4, pos + 8 + length);
    let computed = crc32_of(covered);
    let stored = match read_u32(bytes, pos + 8 + length) {
        Ok(v) => v,
        Err(e) => {
            return Err(e);
        },
    };
    if computed != stored {
        Err(DecodeError::CrcMismatch)
    } else {
        Ok(())
    }
}

/// The position `n` bytes after `pos`, which must lie within the input.
pub fn skip_bytes(bytes: &[u8], pos: usize, n: usize) -> (r: Result<usize, DecodeError>)
    ensures
        match r {
            Ok(p) => pos + n <= bytes@.len() && p == pos + n,
            Err(e) => pos + n > bytes@.len() && e == DecodeError::UnexpectedEof,
        },
{
    if pos > bytes.len() || bytes.len() - pos < n {
        return Err(DecodeError::UnexpectedEof);
    }
    Ok(pos + n)
}

/// Reads the IHDR chunk at byte 8 and checks its fields.
pub fn read_ihdr(bytes: &[u8], strict: bool) -> (r: Result<Ihdr, DecodeError>)
    ensures
        r == ihdr_of(bytes@, strict),
{
    let (chunk_length, chunk_type) = match read_chunk_length_and_type(bytes, 8) {
        Ok(x) => x,
        Err(e) => {
            return Err(e);
        },
    };
    if chunk_type != ChunkType::IHDR {
        return Err(DecodeError::FirstChunkNotIhdr);
    }
    if chunk_length != 13 {
        return Err(DecodeError::BadIhdrLength);
    }
    if bytes.len() < 33 {
        return Err(DecodeError::UnexpectedEof);
    }
    let width = match read_u32(bytes, 16) {
        Ok(v) => v,
        Err(e) => {
            return Err(e);
        },
    };
    let height = match read_u32(bytes, 20) {
        Ok(v) => v,
        Err(e) => {
            return Err(e);
        },
    };
    let mut fields: [u8; 5] = [0; 5];
    let mut i: usize = 0;
    while i < 5
        invariant
            0 <= i <= 5,
            bytes@.len() >= 33,
            forall|k: int| 0 <= k < i ==> fields[k] == bytes@[24 + k],
        decreases 5 - i,
    {
        fields[i] = match read_u8(bytes, 24 + i) {
            Ok(b) => b,
            Err(e) => {
                return Err(e);
            },
        };
        i = i + 1;
    }
    let bit_depth = BitDepth::from_byte(fields[0]);
    let color_type = ColorType::from_byte(fields[1]);
    let bytes_per_pixel = match bytes_per_pixel(&color_type, &bit_depth) {
        Ok(b) => b,
        Err(e) => {
            return Err(e);
        },
    };
    if fields[2] != 0 {
        return Err(DecodeError::UnknownCompressionMethod);
    }
    if fields[3] != 0 {
        return Err(DecodeError::UnknownFilterMethod);
    }
    if fields[4] > 1 {
        return Err(DecodeError::UnknownInterlaceMethod);
    }
    if fields[4] == 1 {
        return Err(DecodeError::InterlaceUnsupported);
    }
    match check_crc(bytes, 8, 13, strict) {
        Ok(()) => {},
        Err(e) => {
            return Err(e);
        },
    }
    Ok(Ihdr { width, height, bit_depth, color_type, bytes_per_pixel })
}

/// Processes the chunk at byte `pos`: appends the data of an IDAT chunk to `compressed_data`
/// and skips an ancillary one. The position of the next chunk, or `None` at IEND.
pub fn process_chunk(bytes: &[u8], pos: usize, compressed_data: &mut Vec<u8>, strict: bool) -> (r: Result<Option<usize>, DecodeError>)
    ensures
        ({
            let data = bytes@;
            if pos + 8 > data.len() {
                r == Err::<Option<usize>, DecodeError>(DecodeError::UnexpectedEof)
            } else {
                let len = u32_be(data, pos as int);
                let ty = chunk_type_of(u32_be(data, pos + 4) as u32);
                let end = pos + 12 + len;
                if ty == ChunkType::IEND {
                    r == Ok::<Option<usize>, DecodeError>(None) && final(compressed_data)@ == old(compressed_data)@
                } else if ty == ChunkType::PLTE {
                    r == Err::<Option<usize>, DecodeError>(DecodeError::PaletteUnsupported)
                } else if ty == ChunkType::IHDR {
                    r == Err::<Option<usize>, DecodeError>(DecodeError::SecondIhdr)
                } else if end > data.len() {
                    r == Err::<Option<usize>, DecodeError>(DecodeError::UnexpectedEof)
                } else if strict && !chunk_crc_ok(data, pos as int, len) {
                    r == Err::<Option<usize>, DecodeError>(DecodeError::CrcMismatch)
                } else {
                    r == Ok::<Option<usize>, DecodeError>(Some(end as usize)) && final(compressed_data)@ == if ty == ChunkType::IDAT {
                        old(compressed_data)@ + data.subrange(pos + 8, pos + 8 + len)
                    } else {
                        old(compressed_data)@
                    }
                }
            }
        }),
{
    let n = bytes.len();
    let (chunk_length, chunk_type) = match read_chunk_length_and_type(bytes, pos) {
        Ok(x) => x,
        Err(e) => {
            return Err(e);
        },
    };
    match chunk_type {
        ChunkType::IEND => {
            return Ok(None);
        },
        ChunkType::PLTE => {
            return Err(DecodeError::PaletteUnsupported);
        },
        ChunkType::IHDR => {
            return Err(DecodeError::SecondIhdr);
        },
        _ => {},
    }
    let length = chunk_length as usize;
    let data_end = match skip_bytes(bytes, pos + 8, length) {
        Ok(p) => p,
        Err(e) => {
            return Err(e);
        },
    };
    let end = match skip_bytes(bytes, data_end, 4) {
        Ok(p) => p,
        Err(e) => {
            return Err(e);
        },
    };
    match check_crc(bytes, pos, length, strict) {
        Ok(()) => {},
        Err(e) => {
            return Err(e);
        },
    }
    if chunk_type == ChunkType::IDAT {
        let mut i: usize = pos + 8;
        let ghost start = compressed_data@;
        while i < data_end
            invariant
                pos + 8 <= i <= data_end,
                data_end <= bytes@.len(),
                compressed_data@ == start + bytes@.subrange(pos + 8, i as int),
            decreases data_end - i,
        {
            compressed_data.push(bytes[i]);
            i = i + 1;
            proof {
                assert(compressed_data@ =~= start + bytes@.subrange(pos + 8, i as int));
            }
        }
    }
    Ok(Some(end))
}

/// Decompresses the IDAT data `compressed_data` and reverses the scanline filters.
pub fn decode_image(ihdr: &Ihdr, compressed_data: &[u8]) -> (r: Result<Vec<u8>, DecodeError>)
    requires
        ihdr.bytes_per_pixel >= 1,
    ensures
        match image_of(*ihdr, compressed_data@) {
            Ok(img) => r matches Ok(v) && v@ == img,
            Err(e) => r matches Err(f) && f == e,
        },
{
    let mut decompressed_data: Vec<u8> = Vec::new();
    match decompress(compressed_data, &mut decompressed_data) {
        Ok(()) => {},
        Err(e) => {
            return Err(e);
        },
    }
    let w = ihdr.width as u128;
    let b = ihdr.bytes_per_pixel as u128;
    let h = ihdr.height as u128;
    proof {
        assert(w * b < 0x1_0000_0000_0000_0000) by (nonlinear_arith)
            requires
                w < 0x1_0000_0000,
                b < 0x1_0000_0000,
        ;
        assert(h * (w * b + 1) < 0x1_0000_0000_0000_0000_0000_0000) by (nonlinear_arith)
            requires
                w * b < 0x1_0000_0000_0000_0000,
                h < 0x1_0000_0000,
        ;
    }
    let stride: u128 = w * b;
    let needed: u128 = h * (stride + 1);
    if needed > usize::MAX as u128 {
        return Err(DecodeError::ImageTooLarge);
    }
    if (decompressed_data.len() as u128) < needed {
        return Err(DecodeError::ImageDataTooShort);
    }
    apply_filters(ihdr, decompressed_data.as_slice())
}

/// The data of the IDAT chunks from byte 33 on, in their order, up to the IEND chunk.
pub fn read_idat_chunks(bytes: &[u8], strict: bool) -> (r: Result<Vec<u8>, DecodeError>)
    ensures
        match idat_from(bytes@, 33, Seq::empty(), strict) {
            Ok(z) => r matches Ok(v) && v@ == z,
            Err(e) => r matches Err(f) && f == e,
        },
{
    let n = bytes.len();
    let mut compressed_data: Vec<u8> = Vec::new();
    let mut pos: usize = 33;
    loop
        invariant
            n == bytes@.len(),
            idat_from(bytes@, pos as nat, compressed_data@, strict) == idat_from(bytes@, 33, Seq::empty(), strict),
        decreases bytes@.len() - pos,
    {
        match process_chunk(bytes, pos, &mut compressed_data, strict) {
            Ok(Some(next)) => {
                pos = next;
            },
            Ok(None) => {
                return Ok(compressed_data);
            },
            Err(e) => {
                return Err(e);
            },
        }
    }
}

/// A decoded image: `height` rows of `width` pixels of `bytes_per_pixel` bytes each, row after
/// row, with the scanline filters reversed.
#[derive(PartialEq, Debug)]
pub struct Png {
    pub width: u32,
    pub height: u32,
    pub bit_depth: BitDepth,
    pub color_type: ColorType,
    pub bytes_per_pixel: u32,
    pub data: Vec<u8>,
}

impl Png {
    /// Decodes the PNG file `bytes`. A chunk whose CRC-32 does not match is accepted.
    pub fn from_bytes(bytes: &[u8]) -> (r: Result<Png, DecodeError>)
        ensures
            match png_decode(bytes@, false) {
                Ok((h, img)) => match r {
                    Ok(png) => png.width == h.width && png.height == h.height && png.bit_depth
                        == h.bit_depth && png.color_type == h.color_type && png.bytes_per_pixel
                        == h.bytes_per_pixel && png.data@ == img,
                    Err(_) => false,
                },
                Err(e) => r matches Err(f) && f == e,
            },
    {
        Png::decode(bytes, false)
    }

    /// Decodes the PNG file `bytes`; with `strict_crc`, a chunk whose CRC-32 does not match is
    /// an error.
    pub fn decode(bytes: &[u8], strict_crc: bool) -> (r: Result<Png, DecodeError>)
        ensures
            match png_decode(bytes@, strict_crc) {
                Ok((h, img)) => match r {
                    Ok(png) => png.width == h.width && png.height == h.height && png.bit_depth
                        == h.bit_depth && png.color_type == h.color_type && png.bytes_per_pixel
                        == h.bytes_per_pixel && png.data@ == img,
                    Err(_) => false,
                },
                Err(e) => r matches Err(f) && f == e,
            },
    {
        match read_png_header(bytes) {
            Ok(()) => {},
            Err(e) => {
                return Err(e);
            },
        }
        let ihdr = match read_ihdr(bytes, strict_crc) {
            Ok(h) => h,
            Err(e) => {
                return Err(e);
            },
        };
        let compressed_data = match read_idat_chunks(bytes, strict_crc) {
            Ok(v) => v,
            Err(e) => {
                return Err(e);
            },
        };
        let image = match decode_image(&ihdr, compressed_data.as_slice()) {
            Ok(v) => v,
            Err(e) => {
                return Err(e);
            },
        };
        Ok(
            Png {
                width: ihdr.width,
                height: ihdr.height,
                bit_depth: ihdr.bit_depth,
                color_type: ihdr.color_type,
                bytes_per_pixel: ihdr.bytes_per_pixel,
                data: image,
            },
        )
    }
}

} // verus!
