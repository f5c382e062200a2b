use vekotin::error::DecodeError;
use vekotin::fiddling::BitOrder::{LsbFirst, MsbFirst};
use vekotin::fiddling::{first_n_bits, last_n_bits, n_bits_by_index, reverse_bits, BitStream};

#[test]
fn test_multiple_reads() {
    let bytes: [u8; 12] = [
        0b0000_0001,
        0b0010_0011,
        0b0100_0101,
        0b0110_0111,
        0b1000_1001,
        0b1010_1011,
        0b1100_1101,
        0b1110_1111, // read_u16_le
        0b1111_1111, //
        0b1010_1011, // read_bits
        0b1100_1101, // read_u16_le
        0b1110_1111,
    ];
    let mut f = BitStream::new(&bytes[..]);
    assert_eq!(f.read_bits(3, MsbFirst).unwrap(), 0b100);
    f.peek_bits(9, MsbFirst).unwrap();
    assert_eq!(f.read_bits(4, LsbFirst).unwrap(), 0b0000);
    f.peek_bits(9, MsbFirst).unwrap();
    assert_eq!(f.read_bits(0, LsbFirst).unwrap(), 0);
    f.peek_bits(9, MsbFirst).unwrap();
    assert_eq!(f.read_bits(8, MsbFirst).unwrap(), 0b0110_0010);
    f.peek_bits(9, MsbFirst).unwrap();
    assert!(!f.is_at_byte_boundary());
    f.peek_bits(9, MsbFirst).unwrap();
    f.skip_to_next_byte().unwrap();
    f.peek_bits(9, MsbFirst).unwrap();
    assert!(f.is_at_byte_boundary());
    f.peek_bits(9, MsbFirst).unwrap();
    f.skip_to_start_of_byte().unwrap(); // Should be no-op here
    f.peek_bits(9, MsbFirst).unwrap();
    assert!(f.is_at_byte_boundary());
    f.peek_bits(9, MsbFirst).unwrap();
    assert_eq!(f.peek_bits(5, LsbFirst).unwrap(), 0b0_0101);
    f.peek_bits(9, MsbFirst).unwrap();
    assert_eq!(f.read_bits(5, LsbFirst).unwrap(), 0b0_0101);
    f.peek_bits(9, MsbFirst).unwrap();
    assert_eq!(f.read_bits(0, MsbFirst).unwrap(), 0);
    f.peek_bits(9, MsbFirst).unwrap();
    assert_eq!(f.read_bits(5, LsbFirst).unwrap(), 0b1_1010);
    f.peek_bits(9, MsbFirst).unwrap();
    assert_eq!(f.read_bits(5, MsbFirst).unwrap(), 0b1_0011);
    f.peek_bits(9, MsbFirst).unwrap();
    assert_eq!(f.peek_bits(10, MsbFirst).unwrap(), 0b01_0010_0011);
    f.peek_bits(9, MsbFirst).unwrap();
    assert_eq!(f.read_bits(10, MsbFirst).unwrap(), 0b01_0010_0011);
    f.peek_bits(9, MsbFirst).unwrap();
    assert_eq!(f.read_next_byte().unwrap(), 0b1100_1101);
    f.peek_bits(9, MsbFirst).unwrap();
    assert!(f.is_at_byte_boundary());
    assert_eq!(f.read_u16_le().unwrap(), 0b1111_1111_1110_1111);
    f.peek_bits(9, MsbFirst).unwrap();
    assert_eq!(f.read_bits(0, LsbFirst).unwrap(), 0);
    f.peek_bits(9, MsbFirst).unwrap();
    assert_eq!(f.read_bits(1, LsbFirst).unwrap(), 1);
    f.peek_bits(9, MsbFirst).unwrap();
    assert_eq!(f.read_bits(1, MsbFirst).unwrap(), 1);
    // Skips to the start of next byte
    assert_eq!(f.read_u16_le().unwrap(), 0b1110_1111_1100_1101);
}

#[test]
fn reverse_bits_example() {
    assert_eq!(reverse_bits(0b11110011), 0b11001111);
    assert_eq!(reverse_bits(0b00000001), 0b10000000);
    assert_eq!(reverse_bits(0), 0);
}

#[test]
fn first_and_last_n_bits() {
    assert_eq!(first_n_bits(0b11111111, 0), 0);
    assert_eq!(first_n_bits(0b11111111, 3), 0b00000111);
    assert_eq!(first_n_bits(0b11111111, 100), first_n_bits(0b11111111, 8));
    assert_eq!(last_n_bits(0b11111111, 0), 0);
    assert_eq!(last_n_bits(0b10111111, 3), 0b00000101);
    assert_eq!(last_n_bits(0b11111111, 100), last_n_bits(0b11111111, 8));
}

#[test]
fn n_bits_by_index_examples() {
    assert_eq!(n_bits_by_index(&[0b01010101], 4, 0, LsbFirst), 0b0101);
    assert_eq!(n_bits_by_index(&[0b01010101], 4, 0, MsbFirst), 0b1010);
    assert_eq!(n_bits_by_index(&[0b01010101], 4, 3, LsbFirst), 0b1010);
    assert_eq!(n_bits_by_index(&[0b01010101], 4, 3, MsbFirst), 0b0101);
    assert_eq!(n_bits_by_index(&[0b01010101, 0b00110011], 8, 6, LsbFirst), 0b11001101);
    assert_eq!(n_bits_by_index(&[0b01010101, 0b00110011], 8, 6, MsbFirst), 0b10110011);
    assert_eq!(n_bits_by_index(&[0b01010101, 0b00110011], 0, 6, MsbFirst), 0);
}

#[test]
fn reads_of_three_bits_in_both_orders() {
    let bytes: [u8; 2] = [0b01010101, 0b00110011];
    let mut f = BitStream::new(&bytes[..]);
    assert_eq!(f.read_bits(3, LsbFirst).unwrap(), 0b101);
    assert_eq!(f.read_bits(3, LsbFirst).unwrap(), 0b010);
    assert_eq!(f.read_bits(3, LsbFirst).unwrap(), 0b101);
    assert_eq!(f.read_bits(3, LsbFirst).unwrap(), 0b001);
    assert_eq!(f.read_bits(3, LsbFirst).unwrap(), 0b011);

    let mut f = BitStream::new(&bytes[..]);
    assert_eq!(f.read_bits(3, MsbFirst).unwrap(), 0b101);
    assert_eq!(f.read_bits(3, MsbFirst).unwrap(), 0b010);
    assert_eq!(f.read_bits(3, MsbFirst).unwrap(), 0b101);
    assert_eq!(f.read_bits(3, MsbFirst).unwrap(), 0b100);
    assert_eq!(f.read_bits(3, MsbFirst).unwrap(), 0b110);
}

#[test]
fn peeking_twice_gives_the_same_bits() {
    let bytes: [u8; 2] = [0b01010101, 0b00110011];
    let mut f = BitStream::new(&bytes[..]);
    for n in [0usize, 1, 4, 8, 9, 16] {
        assert_eq!(f.peek_bits(n, MsbFirst).unwrap(), f.peek_bits(n, MsbFirst).unwrap());
        assert_eq!(f.peek_bits(n, LsbFirst).unwrap(), f.peek_bits(n, LsbFirst).unwrap());
    }
    assert_eq!(f.peek_bits(17, MsbFirst), Err(DecodeError::UnexpectedEof));
    assert_eq!(f.peek_bits(2, MsbFirst).unwrap(), f.read_bits(2, MsbFirst).unwrap());
    assert_eq!(f.peek_bits(14, LsbFirst).unwrap(), f.peek_bits(14, LsbFirst).unwrap());
    assert_eq!(f.peek_bits(16, LsbFirst), Err(DecodeError::UnexpectedEof));
}

/// Reads the stream in runs of mixed widths and orders and puts the bits back together.
#[test]
fn bits_read_in_runs_rebuild_the_input() {
    let bytes: [u8; 12] = [0x9c, 0x35, 0xe1, 0x07, 0xaa, 0x5b, 0xff, 0x00, 0x81, 0x42, 0x6d, 0xd3];
    let runs: [(usize, bool); 9] = [
        (3, true),
        (7, false),
        (13, true),
        (1, false),
        (0, true),
        (20, false),
        (33, true),
        (9, false),
        (10, true),
    ];
    let mut f = BitStream::new(&bytes[..]);
    let mut bits: Vec<u8> = Vec::new();
    for (n, msb) in runs {
        let order = if msb { MsbFirst } else { LsbFirst };
        let v = f.read_bits(n, order).unwrap();
        for i in 0..n {
            let bit = if msb { (v >> (n - 1 - i)) & 1 } else { (v >> i) & 1 };
            bits.push(bit as u8);
        }
    }
    assert_eq!(bits.len(), 96);
    for (k, bit) in bits.iter().enumerate() {
        assert_eq!(*bit, (bytes[k / 8] >> (k % 8)) & 1, "bit {}", k);
    }
    assert_eq!(f.read_bits(1, LsbFirst), Err(DecodeError::UnexpectedEof));
}

#[test]
fn wide_reads_cross_many_bytes() {
    let bytes: [u8; 10] = [0xff, 0x01, 0x02, 0x03, 0x04, 0x05, 0x06, 0x07, 0x08, 0x80];
    let mut f = BitStream::new(&bytes[..]);
    assert_eq!(f.read_bits(4, LsbFirst).unwrap(), 0xf);
    assert_eq!(f.read_bits(64, LsbFirst).unwrap(), 0x8070605040302010 | 0xf);
    assert_eq!(f.read_bits(12, LsbFirst).unwrap(), 0x800);
}

#[test]
fn byte_reads_align_first() {
    let bytes: [u8; 4] = [0xab, 0xcd, 0x34, 0x12];
    let mut f = BitStream::new(&bytes[..]);
    assert_eq!(f.read_bits(1, LsbFirst).unwrap(), 1);
    assert_eq!(f.read_next_byte().unwrap(), 0xcd);
    assert_eq!(f.read_u16_le().unwrap(), 0x1234);
    assert_eq!(f.read_next_byte(), Err(DecodeError::UnexpectedEof));
    assert_eq!(f.get_ref().len(), 4);
}
