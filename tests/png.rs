use vekotin::digest::{adler32_of, crc32_of, Adler32, Crc32};
use vekotin::error::DecodeError;
use vekotin::png::{
    apply_filters, bytes_per_pixel, paeth_predictor, read_png_header, BitDepth, ColorType, Ihdr, Png,
};

const TWO_BY_TWO: [u8; 82] = [
    0x89, 0x50, 0x4e, 0x47, 0x0d, 0x0a, 0x1a, 0x0a, 0x00, 0x00, 0x00, 0x0d,
    0x49, 0x48, 0x44, 0x52, 0x00, 0x00, 0x00, 0x02, 0x00, 0x00, 0x00, 0x02,
    0x08, 0x02, 0x00, 0x00, 0x00, 0xfd, 0xd4, 0x9a, 0x73, 0x00, 0x00, 0x00,
    0x19, 0x49, 0x44, 0x41, 0x54, 0x78, 0x01, 0x01, 0x0e, 0x00, 0xf1, 0xff,
    0x00, 0xff, 0x00, 0x00, 0x00, 0xff, 0x00, 0x00, 0x00, 0x00, 0xff, 0xff,
    0xff, 0xff, 0x1f, 0xee, 0x05, 0xfb, 0xde, 0xdd, 0xec, 0x2b, 0x00, 0x00,
    0x00, 0x00, 0x49, 0x45, 0x4e, 0x44, 0xae, 0x42, 0x60, 0x82,
];

const TWO_BY_TWO_SPLIT: [u8; 109] = [
    0x89, 0x50, 0x4e, 0x47, 0x0d, 0x0a, 0x1a, 0x0a, 0x00, 0x00, 0x00, 0x0d,
    0x49, 0x48, 0x44, 0x52, 0x00, 0x00, 0x00, 0x02, 0x00, 0x00, 0x00, 0x02,
    0x08, 0x02, 0x00, 0x00, 0x00, 0xfd, 0xd4, 0x9a, 0x73, 0x00, 0x00, 0x00,
    0x03, 0x74, 0x45, 0x58, 0x74, 0x6b, 0x00, 0x76, 0xcb, 0x04, 0xf3, 0x90,
    0x00, 0x00, 0x00, 0x0a, 0x49, 0x44, 0x41, 0x54, 0x78, 0x01, 0x01, 0x0e,
    0x00, 0xf1, 0xff, 0x00, 0xff, 0x00, 0x76, 0xc4, 0xf7, 0xf0, 0x00, 0x00,
    0x00, 0x0f, 0x49, 0x44, 0x41, 0x54, 0x00, 0x00, 0xff, 0x00, 0x00, 0x00,
    0x00, 0xff, 0xff, 0xff, 0xff, 0x1f, 0xee, 0x05, 0xfb, 0x65, 0xc3, 0xfc,
    0x2a, 0x00, 0x00, 0x00, 0x00, 0x49, 0x45, 0x4e, 0x44, 0xae, 0x42, 0x60,
    0x82,
];

const FILTERED: [u8; 118] = [
    0x89, 0x50, 0x4e, 0x47, 0x0d, 0x0a, 0x1a, 0x0a, 0x00, 0x00, 0x00, 0x0d,
    0x49, 0x48, 0x44, 0x52, 0x00, 0x00, 0x00, 0x03, 0x00, 0x00, 0x00, 0x05,
    0x08, 0x02, 0x00, 0x00, 0x00, 0x0f, 0x13, 0xc1, 0xf5, 0x00, 0x00, 0x00,
    0x3d, 0x49, 0x44, 0x41, 0x54, 0x78, 0xda, 0x01, 0x32, 0x00, 0xcd, 0xff,
    0x01, 0x79, 0x42, 0xbd, 0x79, 0xdf, 0x49, 0xfe, 0x63, 0x71, 0x02, 0xe9,
    0xae, 0x36, 0xd9, 0x2c, 0x70, 0x5d, 0x43, 0x90, 0x03, 0xef, 0xd9, 0x9c,
    0x25, 0xc0, 0x44, 0x7f, 0x5b, 0x92, 0x04, 0xaa, 0x92, 0x2f, 0xf1, 0x4e,
    0x89, 0x53, 0x37, 0xe6, 0x00, 0x84, 0xdf, 0x9a, 0xd7, 0xc5, 0xb3, 0xd0,
    0x76, 0xac, 0x61, 0x3d, 0x19, 0x42, 0x55, 0x52, 0x28, 0x39, 0x00, 0x00,
    0x00, 0x00, 0x49, 0x45, 0x4e, 0x44, 0xae, 0x42, 0x60, 0x82,
];

const FILTERED_PIXELS: [u8; 45] = [
    0x79, 0x42, 0xbd, 0xf2, 0x21, 0x06, 0xf0, 0x84, 0x77, 0x62, 0xf0, 0xf3,
    0xcb, 0x4d, 0x76, 0x4d, 0xc7, 0x07, 0x20, 0x51, 0x15, 0x9a, 0x0f, 0x89,
    0xf2, 0xc6, 0xda, 0xca, 0xe3, 0x44, 0xbb, 0x31, 0x12, 0x45, 0xfd, 0x6f,
    0x84, 0xdf, 0x9a, 0xd7, 0xc5, 0xb3, 0xd0, 0x76, 0xac,
];

#[test]
fn two_by_two_rgb_image() {
    let png = Png::from_bytes(&TWO_BY_TWO).unwrap();
    assert_eq!(png.width, 2);
    assert_eq!(png.height, 2);
    assert_eq!(png.bit_depth, BitDepth::Bits8);
    assert_eq!(png.color_type, ColorType::RGB);
    assert_eq!(png.bytes_per_pixel, 3);
    assert_eq!(png.data, vec![255, 0, 0, 0, 255, 0, 0, 0, 255, 255, 255, 255]);
    assert_eq!(Png::decode(&TWO_BY_TWO, true).unwrap(), png);
}

#[test]
fn chunks_between_and_split_image_data() {
    let png = Png::from_bytes(&TWO_BY_TWO_SPLIT).unwrap();
    assert_eq!(png.data, vec![255, 0, 0, 0, 255, 0, 0, 0, 255, 255, 255, 255]);
}

#[test]
fn all_filter_types_are_reversed() {
    let png = Png::decode(&FILTERED, true).unwrap();
    assert_eq!((png.width, png.height, png.bytes_per_pixel), (3, 5, 3));
    assert_eq!(png.data, FILTERED_PIXELS.to_vec());
}

#[test]
fn crc_mismatch_only_fails_when_strict() {
    let mut bytes = TWO_BY_TWO;
    bytes[29] ^= 0xff;
    assert_eq!(Png::decode(&bytes, true), Err(DecodeError::CrcMismatch));
    assert!(Png::from_bytes(&bytes).is_ok());
}

#[test]
fn bad_signature() {
    let mut bytes = TWO_BY_TWO;
    bytes[1] = b'Q';
    assert_eq!(Png::from_bytes(&bytes), Err(DecodeError::BadSignature));
    assert_eq!(read_png_header(&bytes[..4]), Err(DecodeError::UnexpectedEof));
    assert_eq!(read_png_header(&TWO_BY_TWO), Ok(()));
}

#[test]
fn first_chunk_must_be_ihdr() {
    let mut bytes = TWO_BY_TWO;
    bytes[12] = b'i';
    assert_eq!(Png::from_bytes(&bytes), Err(DecodeError::FirstChunkNotIhdr));
}

#[test]
fn ihdr_fields_are_checked() {
    let mut bytes = TWO_BY_TWO;
    bytes[25] = 3;
    assert_eq!(Png::from_bytes(&bytes), Err(DecodeError::PaletteUnsupported));
    let mut bytes = TWO_BY_TWO;
    bytes[24] = 4;
    assert_eq!(Png::from_bytes(&bytes), Err(DecodeError::InvalidBitDepthForColorType));
    let mut bytes = TWO_BY_TWO;
    bytes[26] = 1;
    assert_eq!(Png::from_bytes(&bytes), Err(DecodeError::UnknownCompressionMethod));
    let mut bytes = TWO_BY_TWO;
    bytes[27] = 1;
    assert_eq!(Png::from_bytes(&bytes), Err(DecodeError::UnknownFilterMethod));
    let mut bytes = TWO_BY_TWO;
    bytes[28] = 1;
    assert_eq!(Png::from_bytes(&bytes), Err(DecodeError::InterlaceUnsupported));
    let mut bytes = TWO_BY_TWO;
    bytes[28] = 2;
    assert_eq!(Png::from_bytes(&bytes), Err(DecodeError::UnknownInterlaceMethod));
    let mut bytes = TWO_BY_TWO;
    bytes[11] = 12;
    assert_eq!(Png::from_bytes(&bytes), Err(DecodeError::BadIhdrLength));
}

#[test]
fn truncated_file() {
    assert_eq!(Png::from_bytes(&TWO_BY_TWO[..60]), Err(DecodeError::UnexpectedEof));
    assert_eq!(Png::from_bytes(&TWO_BY_TWO[..20]), Err(DecodeError::UnexpectedEof));
}

#[test]
fn image_larger_than_its_data() {
    let mut bytes = TWO_BY_TWO;
    bytes[23] = 3;
    assert_eq!(Png::from_bytes(&bytes), Err(DecodeError::ImageDataTooShort));
}

#[test]
fn unknown_filter_type() {
    let ihdr = Ihdr { width: 1, height: 2, bit_depth: BitDepth::Bits8, color_type: ColorType::Grayscale, bytes_per_pixel: 1 };
    assert_eq!(apply_filters(&ihdr, &[0, 7, 5, 7]), Err(DecodeError::InvalidFilterType));
}

fn predict(t: u8, left: u8, up: u8, up_left: u8) -> u8 {
    match t {
        1 => left,
        2 => up,
        3 => ((left as u16 + up as u16) / 2) as u8,
        4 => paeth_predictor(left, up, up_left),
        _ => 0,
    }
}

fn filter(raw: &[u8], prior: Option<&[u8]>, t: u8, bpp: usize) -> Vec<u8> {
    let mut out = vec![t];
    for x in 0..raw.len() {
        let left = if x >= bpp { raw[x - bpp] } else { 0 };
        let up = prior.map_or(0, |p| p[x]);
        let up_left = if x >= bpp { prior.map_or(0, |p| p[x - bpp]) } else { 0 };
        out.push(raw[x].wrapping_sub(predict(t, left, up, up_left)));
    }
    out
}

#[test]
fn filtering_then_reversing_gives_the_scanline_back() {
    let first: [u8; 8] = [10, 200, 30, 255, 0, 128, 77, 3];
    let second: [u8; 8] = [250, 1, 90, 66, 180, 12, 0, 255];
    let ihdr = Ihdr { width: 4, height: 2, bit_depth: BitDepth::Bits8, color_type: ColorType::GrayscaleAlpha, bytes_per_pixel: 2 };
    for t in 0u8..=4 {
        let mut data = filter(&first, None, t, 2);
        data.extend(filter(&second, Some(&first), t, 2));
        let image = apply_filters(&ihdr, &data).unwrap();
        assert_eq!(&image[..8], &first[..], "filter {} on the first row", t);
        assert_eq!(&image[8..], &second[..], "filter {} on the second row", t);
    }
}

#[test]
fn paeth_predictor_values() {
    assert_eq!(paeth_predictor(10, 10, 10), 10);
    assert_eq!(paeth_predictor(1, 5, 3), 3);
    assert_eq!(paeth_predictor(0, 200, 10), 200);
    assert_eq!(paeth_predictor(7, 7, 0), 7);
    assert_eq!(paeth_predictor(2, 9, 9), 2);
    assert_eq!(paeth_predictor(100, 20, 60), 60);
}

#[test]
fn bytes_per_pixel_table() {
    assert_eq!(bytes_per_pixel(&ColorType::Grayscale, &BitDepth::Bits1), Ok(1));
    assert_eq!(bytes_per_pixel(&ColorType::Grayscale, &BitDepth::Bits16), Ok(2));
    assert_eq!(bytes_per_pixel(&ColorType::RGB, &BitDepth::Bits16), Ok(6));
    assert_eq!(bytes_per_pixel(&ColorType::GrayscaleAlpha, &BitDepth::Bits8), Ok(2));
    assert_eq!(bytes_per_pixel(&ColorType::RGBA, &BitDepth::Bits16), Ok(8));
    assert_eq!(bytes_per_pixel(&ColorType::Palette, &BitDepth::Bits8), Err(DecodeError::PaletteUnsupported));
    assert_eq!(bytes_per_pixel(&ColorType::RGB, &BitDepth::Bits4), Err(DecodeError::InvalidBitDepthForColorType));
    assert_eq!(BitDepth::from_byte(16), BitDepth::Bits16);
    assert_eq!(BitDepth::from_byte(3), BitDepth::Invalid);
    assert_eq!(ColorType::from_byte(6), ColorType::RGBA);
    assert_eq!(ColorType::from_byte(5), ColorType::Invalid);
}

#[test]
fn crc32_of_an_ihdr_chunk() {
    let data = [0x49u8, 0x48, 0x44, 0x52, 0x00, 0x00, 0x03, 0x20, 0x00, 0x00, 0x02, 0x58, 0x08, 0x06, 0x00, 0x00, 0x00];
    let mut crc = Crc32::new();
    for b in &data {
        crc.update(*b);
    }
    assert_eq!(crc.digest(), 2591457904);
    assert_eq!(crc32_of(&data), 2591457904);
    assert_eq!(crc32_of(b"IEND"), 0xae426082);
    crc.reset();
    assert_eq!(crc.digest(), 0);
}

#[test]
fn adler32_values() {
    let mut adler = Adler32::new();
    for b in b"Wikipedia" {
        adler.update(*b);
    }
    assert_eq!(adler.digest(), 0x11E60398);
    assert_eq!(adler32_of(b"abc"), 0x024d0127);
    assert_eq!(adler32_of(&[0xffu8; 6000]), 2761382378);
    adler.reset();
    assert_eq!(adler.digest(), 1);
}

const GRADIENT: [u8; 203] = [
    0x89, 0x50, 0x4e, 0x47, 0x0d, 0x0a, 0x1a, 0x0a, 0x00, 0x00, 0x00, 0x0d, 0x49, 0x48, 0x44, 0x52,
    0x00, 0x00, 0x00, 0x10, 0x00, 0x00, 0x00, 0x08, 0x08, 0x06, 0x00, 0x00, 0x00, 0xf0, 0x76, 0x7f,
    0x97, 0x00, 0x00, 0x00, 0x92, 0x49, 0x44, 0x41, 0x54, 0x78, 0xda, 0xc5, 0xd0, 0xab, 0x01, 0x83,
    0x40, 0x00, 0x04, 0xd1, 0xcd, 0x47, 0x20, 0x4f, 0x46, 0x22, 0x91, 0x27, 0x91, 0x27, 0x91, 0x48,
    0x24, 0x12, 0x89, 0x44, 0x22, 0x23, 0x91, 0x91, 0x5b, 0x02, 0x25, 0x50, 0x02, 0x25, 0x50, 0x42,
    0x3a, 0x98, 0x90, 0x94, 0x00, 0x22, 0xe2, 0xd9, 0x11, 0x23, 0x49, 0x04, 0x65, 0xe4, 0x0a, 0x44,
    0x3d, 0x48, 0xca, 0xa9, 0x55, 0xd0, 0x2a, 0xd2, 0xab, 0x64, 0x54, 0x62, 0x52, 0x85, 0x55, 0x33,
    0xab, 0x61, 0x51, 0xcb, 0xaa, 0x8e, 0x4d, 0x3d, 0x6f, 0x0d, 0x5c, 0x94, 0x67, 0xdf, 0x80, 0x8e,
    0xba, 0xee, 0x01, 0x9d, 0x71, 0x53, 0x0a, 0x63, 0x16, 0x32, 0x1d, 0x75, 0xff, 0x95, 0x74, 0x86,
    0x0b, 0x82, 0x23, 0xb9, 0x4b, 0xa2, 0x13, 0xc9, 0x15, 0xb5, 0x6b, 0x5a, 0x37, 0xf4, 0x6e, 0x19,
    0xdd, 0x31, 0xb9, 0xc7, 0x1e, 0x98, 0x3d, 0xb2, 0xf8, 0xc9, 0xea, 0x89, 0xcd, 0x2f, 0xde, 0xf6,
    0x3e, 0x71, 0x89, 0xff, 0x9d, 0xf8, 0x01, 0x52, 0x4c, 0x51, 0x24, 0xbd, 0x52, 0xd3, 0xd5, 0x00,
    0x00, 0x00, 0x00, 0x49, 0x45, 0x4e, 0x44, 0xae, 0x42, 0x60, 0x82,
];

#[test]
fn gradient_with_dynamic_block_and_mixed_filters() {
    let png = Png::decode(&GRADIENT, true).unwrap();
    assert_eq!((png.width, png.height, png.bytes_per_pixel), (16, 8, 4));
    assert_eq!(png.color_type, ColorType::RGBA);
    let mut expected: Vec<u8> = Vec::new();
    for y in 0u32..8 {
        for x in 0u32..16 {
            expected.extend([((x * 16) % 256) as u8, ((y * 32) % 256) as u8, (((x + y) * 8) % 256) as u8, 255]);
        }
    }
    assert_eq!(png.data, expected);
}

#[test]
fn second_ihdr_is_refused() {
    let bytes = [
        0x89, 0x50, 0x4e, 0x47, 0x0d, 0x0a, 0x1a, 0x0a, 0x00, 0x00, 0x00, 0x0d, 0x49, 0x48, 0x44, 0x52,
        0x00, 0x00, 0x00, 0x02, 0x00, 0x00, 0x00, 0x02, 0x08, 0x02, 0x00, 0x00, 0x00, 0xfd, 0xd4, 0x9a,
        0x73, 0x00, 0x00, 0x00, 0x0d, 0x49, 0x48, 0x44, 0x52, 0x00, 0x00, 0x00, 0x02, 0x00, 0x00, 0x00,
        0x02, 0x08, 0x02, 0x00, 0x00, 0x00, 0xfd, 0xd4, 0x9a, 0x73, 0x00, 0x00, 0x00, 0x00, 0x49, 0x45,
        0x4e, 0x44, 0xae, 0x42, 0x60, 0x82,
    ];
    assert_eq!(Png::from_bytes(&bytes), Err(DecodeError::SecondIhdr));
}

#[test]
fn palette_chunk_is_refused() {
    let mut bytes = TWO_BY_TWO;
    // rename the IDAT chunk to PLTE
    bytes[37..41].copy_from_slice(b"PLTE");
    assert_eq!(Png::from_bytes(&bytes), Err(DecodeError::PaletteUnsupported));
}

#[test]
fn image_too_large_for_memory() {
    let mut bytes = TWO_BY_TWO;
    // width and height 2^31, RGBA
    bytes[16] = 0x80;
    bytes[19] = 0x00;
    bytes[20] = 0x80;
    bytes[23] = 0x00;
    bytes[25] = 6;
    assert_eq!(Png::from_bytes(&bytes), Err(DecodeError::ImageTooLarge));
}
