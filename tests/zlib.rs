use vekotin::error::DecodeError;
use vekotin::zlib::{check_cmf_flg, decompress, CompressionLevel, CompressionMethod, Flags};

fn unzip(bytes: &[u8]) -> Result<Vec<u8>, DecodeError> {
    let mut out = Vec::new();
    decompress(bytes, &mut out).map(|()| out)
}

#[test]
fn zlib_fixed_block() {
    assert_eq!(unzip(&[0x78, 0xda, 0x4b, 0x04, 0x00, 0x00, 0x62, 0x00, 0x62]).unwrap(), b"a".to_vec());
}

#[test]
fn zlib_dynamic_block() {
    let compressed: [u8; 158] = [
        0x78, 0xda, 0x6d, 0x91, 0x4b, 0x0e, 0xc4, 0x30, 0x08, 0x43, 0xaf, 0x92,
        0xab, 0xa5, 0x9a, 0x6a, 0xba, 0x68, 0xa5, 0x4a, 0xd3, 0x15, 0xa7, 0x9f,
        0x34, 0x4e, 0xe2, 0xd7, 0xcf, 0x02, 0x04, 0x04, 0x6c, 0x07, 0x62, 0x3e,
        0x72, 0xfa, 0xe6, 0x6d, 0xcb, 0xe9, 0x8c, 0xf2, 0xba, 0x2f, 0x39, 0x4d,
        0x67, 0x58, 0x5d, 0xb8, 0xf8, 0x99, 0xd7, 0x6b, 0x43, 0xb7, 0x9a, 0xe8,
        0x75, 0xd4, 0xd1, 0xc6, 0xb9, 0x77, 0xb4, 0x46, 0xbf, 0xff, 0x92, 0xc5,
        0x08, 0xa9, 0x94, 0x90, 0x6a, 0x26, 0x06, 0xe7, 0x74, 0x87, 0x3b, 0x96,
        0xce, 0x5f, 0x9b, 0x94, 0xca, 0x47, 0xc7, 0x53, 0xa7, 0x50, 0x29, 0xba,
        0x3c, 0xa1, 0xb3, 0x21, 0x95, 0xa2, 0x99, 0x2c, 0x2e, 0x1c, 0x9a, 0x12,
        0x5f, 0x8e, 0xab, 0xa3, 0x0e, 0xc0, 0x0d, 0x46, 0xfc, 0xc3, 0xc5, 0xbe,
        0x0e, 0x5c, 0x00, 0xfa, 0xb0, 0x15, 0x55, 0xb9, 0x06, 0xaf, 0xad, 0xe5,
        0xcd, 0xc0, 0x76, 0x17, 0xef, 0x91, 0x07, 0xb7, 0x37, 0x0f, 0x52, 0x85,
        0x24, 0xe1, 0x41, 0x85, 0x8b, 0xb3, 0x16, 0xc3, 0xa9, 0xff, 0xac, 0x04,
        0xdf, 0xcd,
    ];
    let expected = "zeta gamma eta alpha beta beta zeta alpha delta alpha beta eta eta beta delta beta eta alpha beta delta alpha eta alpha delta alpha gamma eps eta gamma beta eps gamma beta delta zeta beta beta alpha delta theta eta zeta theta theta zeta eps delta gamma delta beta eps theta zeta theta eps beta beta eta gamma zeta gamma theta eta alpha beta zeta zeta zeta theta theta beta beta eps theta beta alpha eps theta eps eta zeta alpha theta zeta gamma beta theta alpha delta eps gamma delta eta eta theta beta gamma theta eta eps gamma eta eps eta zeta eta delta gamma beta gamma gamma delta delta alpha theta gamma eps eps alpha gamma";
    assert_eq!(unzip(&compressed).unwrap(), expected.as_bytes().to_vec());
}

#[test]
fn zlib_stored_block() {
    let stream = [0x78, 0x01, 0x01, 0x03, 0x00, 0xfc, 0xff, 0x61, 0x62, 0x63, 0x02, 0x4d, 0x01, 0x27];
    assert_eq!(unzip(&stream).unwrap(), b"abc".to_vec());
}

#[test]
fn zlib_header_check_failures_decode_nothing() {
    // 0x78 0x9d fails the check; the stored block after it is never read
    let stream = [0x78, 0x9d, 0x01, 0x03, 0x00, 0xfc, 0xff, 0x61, 0x62, 0x63];
    let mut out = vec![9u8];
    assert_eq!(decompress(&stream, &mut out), Err(DecodeError::BadHeaderCheck));
    assert_eq!(out, vec![9]);
    for flg in 0u8..=255 {
        let ok = (256 * 0x78u32 + flg as u32) % 31 == 0;
        assert_eq!(check_cmf_flg(0x78, flg), ok);
        if !ok {
            assert_eq!(unzip(&[0x78, flg, 0x03, 0x00]), Err(DecodeError::BadHeaderCheck));
        }
    }
}

#[test]
fn zlib_other_header_errors() {
    // method 7 with a valid check
    assert_eq!(unzip(&[0x77, 0x09, 0x03, 0x00]), Err(DecodeError::UnsupportedCompressionMethod));
    // preset dictionary
    assert_eq!(unzip(&[0x78, 0xbb, 0, 0, 0, 0, 0x03, 0x00]), Err(DecodeError::PresetDictionary));
    assert_eq!(unzip(&[0x78]), Err(DecodeError::UnexpectedEof));
}

#[test]
fn zlib_header_fields() {
    assert_eq!(CompressionMethod::from_cmf(0x78), CompressionMethod::Deflate { window_size: 32768 });
    assert_eq!(CompressionMethod::from_cmf(0x08), CompressionMethod::Deflate { window_size: 256 });
    assert_eq!(CompressionMethod::from_cmf(0x77), CompressionMethod::Unknown);
    let flags = Flags::from_flg(0xda);
    assert_eq!(flags.compression_level, CompressionLevel::Level4);
    assert!(!flags.preset_dictionary);
    assert!(Flags::from_flg(0x20).preset_dictionary);
    assert_eq!(Flags::from_flg(0x01).compression_level, CompressionLevel::Level1);
}

const MULTI_BLOCK: [u8; 1276] = [
    0x78, 0xda, 0x7c, 0x97, 0x4b, 0xae, 0x14, 0x31, 0x0c, 0x45, 0xe7, 0xac, 0xa2, 0x16, 0xc0, 0x20,
    0x4e, 0xe2, 0xdf, 0x72, 0x18, 0xf4, 0x13, 0x48, 0x2d, 0x18, 0xd0, 0xb0, 0x7e, 0x40, 0x6d, 0x47,
    0x42, 0xba, 0x75, 0xa7, 0x65, 0xe5, 0x77, 0x62, 0x3b, 0xa7, 0x9e, 0xdf, 0xbe, 0x3f, 0xae, 0x71,
    0xfd, 0xf8, 0xb8, 0x5e, 0x5f, 0x1f, 0xd7, 0xeb, 0xf1, 0xf3, 0xf5, 0xf9, 0xfa, 0xfd, 0xe5, 0xf9,
    0xeb, 0xef, 0xc7, 0x4f, 0xcf, 0x7f, 0x31, 0x41, 0x31, 0x79, 0xc7, 0x26, 0x8a, 0xed, 0x77, 0x6c,
    0xa1, 0x58, 0xbe, 0x63, 0x1b, 0xce, 0x69, 0xef, 0xa0, 0xa2, 0xe0, 0xd4, 0x77, 0xd0, 0x50, 0x70,
    0xd5, 0x48, 0x87, 0xdb, 0xa9, 0x35, 0x03, 0x05, 0xad, 0x36, 0x9b, 0x28, 0x18, 0x75, 0x4a, 0x81,
    0x78, 0x56, 0x05, 0x21, 0x9f, 0x59, 0xf3, 0x0a, 0x26, 0xe4, 0x15, 0x85, 0x8c, 0x7c, 0x56, 0x14,
    0x52, 0xea, 0x20, 0xa4, 0xb4, 0x7a, 0xc7, 0x10, 0x93, 0xf5, 0x58, 0xc8, 0x29, 0x8b, 0xb0, 0x40,
    0x50, 0xab, 0x8f, 0x0b, 0x49, 0x79, 0xe5, 0xca, 0x84, 0xa4, 0xa4, 0xd6, 0x9d, 0x10, 0x95, 0xd6,
    0xcc, 0x13, 0xa2, 0xca, 0xba, 0xda, 0x09, 0x51, 0xed, 0xc2, 0x3c, 0x21, 0xaa, 0xec, 0x2c, 0x85,
    0xac, 0x76, 0xaf, 0x0b, 0x59, 0x65, 0xcf, 0x0c, 0x59, 0x69, 0x9f, 0x17, 0xb2, 0x8a, 0x0a, 0x42,
    0x54, 0x56, 0x98, 0x17, 0x44, 0x35, 0x2b, 0x33, 0x16, 0x44, 0x15, 0x35, 0xf3, 0x82, 0xa8, 0xb4,
    0x0b, 0x0f, 0xa2, 0x9a, 0x75, 0x09, 0x0b, 0xa2, 0x8a, 0x2a, 0x92, 0x05, 0x51, 0x59, 0x81, 0x5c,
    0xb8, 0xfa, 0xfa, 0x44, 0x10, 0x95, 0xf4, 0x58, 0x8c, 0xaa, 0xae, 0x77, 0x61, 0x56, 0x15, 0xdd,
    0x90, 0xd5, 0x2e, 0x1a, 0x1b, 0xb2, 0x5a, 0x75, 0xde, 0x0d, 0x59, 0x49, 0x8f, 0x85, 0xac, 0x7a,
    0x59, 0x9c, 0x55, 0x95, 0x37, 0x1b, 0xa2, 0x8a, 0x82, 0xb1, 0x21, 0x2a, 0xef, 0xfe, 0x07, 0x51,
    0x79, 0x8f, 0x85, 0xa8, 0xbc, 0xd7, 0x4d, 0x16, 0xd5, 0xc1, 0x66, 0x56, 0x61, 0xbb, 0xd2, 0xc9,
    0x4e, 0xa4, 0x8b, 0xd1, 0xd0, 0x4d, 0x40, 0xaa, 0xb2, 0x3b, 0x50, 0x63, 0xf7, 0xa7, 0xce, 0xee,
    0x5e, 0x83, 0xe5, 0x8d, 0x26, 0xcb, 0x39, 0x1b, 0x2c, 0x5f, 0x4d, 0x58, 0xae, 0xdb, 0x64, 0x75,
    0x62, 0x8b, 0xd5, 0x98, 0x6d, 0x56, 0x9f, 0xa6, 0xac, 0xb6, 0xcd, 0x58, 0x5f, 0x30, 0x67, 0x3d,
    0xc5, 0x82, 0xf5, 0x23, 0x4b, 0xd2, 0xca, 0x7c, 0xb0, 0x2e, 0xe8, 0xc2, 0x3a, 0xa8, 0x4f, 0xd6,
    0x7d, 0x7d, 0xb1, 0xce, 0xed, 0x9b, 0x75, 0x7d, 0x57, 0xf6, 0x62, 0xb8, 0xb1, 0xd7, 0xc6, 0x9d,
    0xbd, 0x54, 0x1e, 0xec, 0x95, 0xf3, 0x64, 0x2f, 0x64, 0x0c, 0xf6, 0xba, 0x86, 0xb0, 0x97, 0x39,
    0x26, 0x7b, 0xd5, 0x63, 0x11, 0x21, 0x88, 0xcd, 0x5c, 0x22, 0x94, 0x79, 0x48, 0x18, 0x73, 0x98,
    0x70, 0xa2, 0x3f, 0x11, 0xcc, 0x9c, 0x22, 0xa9, 0x74, 0x0d, 0xe6, 0x6b, 0x29, 0x4c, 0xf5, 0x72,
    0x32, 0x4b, 0xcc, 0xc5, 0x04, 0x33, 0x37, 0x51, 0xd3, 0x54, 0xe2, 0xb4, 0x69, 0x44, 0x86, 0xd3,
    0x89, 0x45, 0x67, 0xb0, 0x91, 0x49, 0xd6, 0x94, 0x31, 0xc8, 0x76, 0x65, 0x08, 0x3b, 0xaa, 0x0c,
    0xca, 0x49, 0xc6, 0x62, 0x90, 0x65, 0x6c, 0x76, 0x43, 0x32, 0x94, 0x5d, 0xaf, 0x0c, 0xe3, 0x56,
    0xcd, 0xf2, 0x4a, 0x46, 0x50, 0xaf, 0x1e, 0x49, 0xc5, 0x1a, 0x2b, 0xfb, 0x31, 0xeb, 0x1b, 0x69,
    0xef, 0x28, 0xad, 0x42, 0xc1, 0xd6, 0x7e, 0xe4, 0x1a, 0x6b, 0xfb, 0xb1, 0xeb, 0x1b, 0x71, 0x3f,
    0x7f, 0x13, 0xc6, 0x3a, 0x8f, 0x08, 0x6d, 0x5b, 0x82, 0xdd, 0x5d, 0xcf, 0xe4, 0xc9, 0x1a, 0xa6,
    0x60, 0x7b, 0xdf, 0xe7, 0x57, 0x46, 0x58, 0xab, 0x96, 0x49, 0xfb, 0xbc, 0x60, 0x81, 0xcf, 0x33,
    0xf9, 0x66, 0x2f, 0x8c, 0x60, 0x85, 0x8f, 0x8e, 0x1a, 0x7b, 0xd9, 0x64, 0xd2, 0x67, 0x51, 0x6e,
    0x24, 0xfe, 0x4c, 0x9e, 0xec, 0x41, 0x96, 0x1b, 0x8f, 0xef, 0x1b, 0xb9, 0x11, 0xf9, 0xae, 0xa0,
    0x45, 0x3d, 0x42, 0xb0, 0xca, 0xb7, 0x84, 0x08, 0x76, 0x79, 0x39, 0xa3, 0x95, 0xe9, 0x8f, 0x60,
    0x9b, 0xb7, 0x13, 0xa6, 0xe2, 0x25, 0xd8, 0xe7, 0xd7, 0x39, 0x77, 0x32, 0xe5, 0x13, 0x6c, 0xf4,
    0xbd, 0x34, 0x36, 0xfa, 0x56, 0x4d, 0xd9, 0xd4, 0x53, 0x05, 0x3b, 0x7d, 0x4b, 0xae, 0x60, 0xab,
    0xf7, 0x33, 0x5a, 0x99, 0x5e, 0xcb, 0x8d, 0xd7, 0x9f, 0xb0, 0xf3, 0xc9, 0x83, 0x6f, 0x2d, 0xe9,
    0xc1, 0xb0, 0xdb, 0x1f, 0x2c, 0x58, 0xee, 0x9b, 0xa9, 0xd2, 0xff, 0x20, 0xc1, 0x76, 0x7f, 0xae,
    0x13, 0xeb, 0xfd, 0x49, 0x06, 0x2c, 0xf8, 0x27, 0x95, 0xb0, 0xe1, 0x9f, 0x44, 0x54, 0xfa, 0xe3,
    0x28, 0xd8, 0xf1, 0x4f, 0x11, 0x60, 0xc9, 0x3f, 0x25, 0x84, 0x2d, 0xff, 0x14, 0x20, 0xd6, 0xfc,
    0x53, 0xbe, 0x46, 0xff, 0xb4, 0xe5, 0x46, 0xf4, 0x1b, 0xcb, 0x8d, 0xe9, 0x77, 0xe3, 0xf9, 0x4f,
    0xf5, 0xff, 0x00, 0x00, 0x00, 0xff, 0xff, 0x7d, 0x97, 0x39, 0x72, 0x64, 0x31, 0x0c, 0x43, 0x73,
    0x9f, 0xe2, 0x1f, 0xc0, 0x81, 0x08, 0x89, 0x5a, 0x8e, 0xe3, 0xa0, 0x5d, 0x9e, 0xaa, 0xae, 0x99,
    0x60, 0xda, 0x3e, 0xbf, 0x1d, 0x18, 0x8c, 0xd0, 0x88, 0x51, 0xd4, 0xf2, 0xc4, 0x45, 0x78, 0xbc,
    0x5e, 0x5f, 0x6f, 0xf7, 0xcf, 0xdb, 0x35, 0xf3, 0xe5, 0xfe, 0xe7, 0xef, 0xed, 0x8a, 0x39, 0xaf,
    0x7f, 0xef, 0xd7, 0xe3, 0xe3, 0x76, 0x3d, 0x6e, 0xff, 0x1f, 0x94, 0x37, 0xd5, 0xa5, 0xd4, 0x6c,
    0x94, 0xb7, 0x92, 0xcf, 0xa0, 0x7c, 0x94, 0x3c, 0xfa, 0xaf, 0xbc, 0x9a, 0x8c, 0x0e, 0xca, 0x21,
    0xa3, 0xb9, 0xf8, 0x82, 0x8c, 0x9e, 0x94, 0xbb, 0x3c, 0x79, 0xed, 0x3d, 0x94, 0x1c, 0xa0, 0x9c,
    0x4a, 0x5e, 0xbc, 0xf7, 0x92, 0xd0, 0x7a, 0x2d, 0x2e, 0xa9, 0x1d, 0x22, 0x5f, 0x92, 0xda, 0xac,
    0xbd, 0x25, 0xb5, 0x4e, 0x2c, 0x5b, 0x52, 0x63, 0xf0, 0x96, 0xd0, 0x56, 0xc9, 0x12, 0xda, 0x58,
    0x94, 0x25, 0x34, 0x10, 0xf9, 0x96, 0xd0, 0x78, 0xeb, 0x2d, 0x99, 0xed, 0x3a, 0xb7, 0x64, 0x36,
    0x6b, 0x6d, 0xc9, 0x6c, 0x1c, 0xca, 0x92, 0x59, 0xe7, 0x6b, 0x6f, 0xc9, 0x0c, 0x24, 0x7e, 0x24,
    0xb3, 0x60, 0xf4, 0x91, 0xd0, 0xb8, 0xf5, 0xd1, 0xcc, 0xa8, 0x4a, 0x64, 0xbc, 0xf4, 0x91, 0xc4,
    0x98, 0x46, 0x27, 0x6d, 0xec, 0xb4, 0xfb, 0x2e, 0x7b, 0xe6, 0xed, 0x2f, 0x6c, 0x71, 0xa1, 0x35,
    0x07, 0x1b, 0x2d, 0xdc, 0x53, 0xa1, 0xc1, 0x3d, 0x34, 0x5a, 0x77, 0x69, 0x82, 0xe6, 0x72, 0x0c,
    0x2d, 0x5d, 0x82, 0xa2, 0x4d, 0x97, 0xde, 0x68, 0xcb, 0x15, 0x07, 0xda, 0x36, 0x95, 0x85, 0x66,
    0xcb, 0x12, 0xd1, 0x5c, 0x51, 0x23, 0xc2, 0xb5, 0x04, 0x04, 0x5c, 0x43, 0x41, 0x74, 0xd7, 0x8e,
    0x10, 0xb6, 0x99, 0x21, 0xd2, 0xb5, 0x42, 0xc4, 0x74, 0x8d, 0x14, 0xb1, 0x5c, 0x1b, 0x46, 0x6c,
    0xd7, 0xc4, 0x11, 0x76, 0x04, 0x00, 0xcd, 0x0d, 0x10, 0x20, 0xdc, 0xf8, 0x01, 0x60, 0x66, 0x17,
    0x20, 0xa1, 0x71, 0xf0, 0x01, 0x12, 0x1a, 0x98, 0x2b, 0xd0, 0xdd, 0xac, 0x16, 0x97, 0xd0, 0xb2,
    0x0e, 0x2e, 0xa1, 0x81, 0x2f, 0x02, 0x09, 0x6d, 0xb3, 0x82, 0x20, 0xa1, 0x4d, 0x32, 0xed, 0xba,
    0x3c, 0x79, 0xb1, 0x2e, 0xa1, 0x45, 0x45, 0x6b, 0x68, 0x7c, 0xee, 0xae, 0xa9, 0x95, 0x2c, 0xa9,
    0x0d, 0x62, 0xe9, 0x92, 0x5a, 0xe7, 0xbd, 0xbb, 0xa4, 0x16, 0x15, 0x2d, 0xa9, 0xd5, 0xd6, 0x3a,
    0xd3, 0x98, 0x4a, 0x5d, 0x42, 0xdb, 0xa4, 0x32, 0x24, 0xb4, 0x45, 0xe4, 0x43, 0xcf, 0xcd, 0x8a,
    0x96, 0xd0, 0x16, 0xf7, 0x1e, 0xdd, 0xcb, 0xc3, 0x2f, 0x9e, 0xfe, 0x68, 0xd3, 0x5f, 0x6c, 0x59,
    0x2c, 0x63, 0x3b, 0xa6, 0xe3, 0xd8, 0x07, 0xc9, 0x66, 0x9f, 0x33, 0xc3, 0x26, 0x43, 0xc2, 0xa6,
    0x52, 0x76, 0x9b, 0x88, 0x39, 0x6c, 0x1a, 0x67, 0xda, 0x22, 0xc8, 0x69, 0x4b, 0x28, 0x97, 0x2d,
    0xc0, 0xdc, 0xb6, 0x7c, 0xf3, 0xd8, 0xe2, 0x9f, 0xcd, 0xb6, 0x8e, 0x19, 0xb6, 0xf1, 0x4c, 0xd8,
    0xb6, 0x35, 0xbb, 0xeb, 0x79, 0x73, 0xd8, 0x86, 0x39, 0xd3, 0xb6, 0x5b, 0xed, 0x05, 0xaa, 0x59,
    0x6b, 0x33, 0x50, 0xad, 0x5e, 0x9b, 0x81, 0x1a, 0x14, 0xda, 0x0c, 0xd4, 0x98, 0xd1, 0x66, 0xa0,
    0x86, 0x94, 0x36, 0x03, 0x35, 0xe2, 0xb4, 0x19, 0xa8, 0x01, 0xa9, 0xcd, 0x40, 0x8d, 0x57, 0x6d,
    0x06, 0x6a, 0x38, 0x6b, 0x33, 0x50, 0xa3, 0xfd, 0x89, 0x19, 0x20, 0x16, 0x6d, 0x06, 0x2a, 0x78,
    0xdb, 0x2f, 0x89, 0xf6, 0x02, 0xf5, 0xa1, 0x79, 0xe2, 0x05, 0x88, 0x5c, 0x9b, 0x01, 0xde, 0x5a,
    0x7b, 0x81, 0xfa, 0x88, 0x69, 0x2f, 0x50, 0xdf, 0x38, 0xed, 0x05, 0xea, 0x13, 0xa8, 0xcd, 0x40,
    0x7d, 0x21, 0xb5, 0x19, 0xa8, 0x0f, 0xa8, 0x36, 0x03, 0x51, 0xd1, 0xdb, 0xfc, 0x7d, 0xa1, 0xbd,
    0x00, 0xcf, 0xfd, 0xc4, 0x0a, 0x50, 0x0d, 0xf3, 0x5f, 0x87, 0x76, 0x02, 0x15, 0xdb, 0xed, 0xbe,
    0xc3, 0x9d, 0xf9, 0x89, 0x13, 0xe0, 0x85, 0x8f, 0xc7, 0xa5, 0xbd, 0x40, 0xc1, 0xd6, 0x66, 0xa0,
    0x9e, 0x4a, 0x9b, 0x81, 0x9f, 0x87, 0xfe, 0x06, 0x0d, 0x34, 0x1b, 0xce,
];

#[test]
fn zlib_several_blocks() {
    let mut expected = String::new();
    for i in 0..300 {
        expected.push_str(&format!("line {} of the test, value {}\n", i, (i * i) % 97));
    }
    assert_eq!(unzip(&MULTI_BLOCK).unwrap(), expected.into_bytes());
}
