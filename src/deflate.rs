//! The DEFLATE decompressor (RFC 1951).
//!
//! Every data element other than a Huffman code, extra bits included, is read least
//! significant bit first; Huffman codes are read most significant bit first.
use vstd::prelude::*;
use crate::error::DecodeError;
use crate::fiddling::{BitOrder, BitStream, lsb_value, next_boundary};
use crate::huffman::{
    HuffmanAlphabet, decode_at, lens_of, max_len, nonzero, fixed_literal_pairs,
    fixed_distance_pairs, is_prefix_code, is_prefix_code_lengths,
};

verus! {

#[derive(PartialEq, Eq, Debug, Clone, Copy, Structural)]
pub enum CompressionType {
    NoCompression,
    FixedHuffman,
    DynamicHuffman,
    Reserved,
}

/// The three header bits of a block.
#[derive(PartialEq, Eq, Debug, Clone, Copy, Structural)]
pub struct BlockHeader {
    pub is_final: bool,
    pub compression_type: CompressionType,
}

/// The header that the three bits `b` (BFINAL first) give.
pub open spec fn header_of(b: nat) -> BlockHeader {
    BlockHeader {
        is_final: b % 2 == 1,
        compression_type: if (b / 2) % 4 == 0 {
            CompressionType::NoCompression
        } else if (b / 2) % 4 == 1 {
            CompressionType::FixedHuffman
        } else if (b / 2) % 4 == 2 {
            CompressionType::DynamicHuffman
        } else {
            CompressionType::Reserved
        },
    }
}

impl BlockHeader {
    /// The header given by the three least significant bits of `b`: bit 0 is BFINAL, bits 1
    /// and 2 are BTYPE.
    pub fn from_header_bits(b: u8) -> (r: BlockHeader)
        ensures
            r == header_of(b as nat % 8),
    {
        let is_final = b % 2 == 1;
        let btype = (b / 2) % 4;
        let compression_type = if btype == 0 {
            CompressionType::NoCompression
        } else if btype == 1 {
            CompressionType::FixedHuffman
        } else if btype == 2 {
            CompressionType::DynamicHuffman
        } else {
            CompressionType::Reserved
        };
        BlockHeader { is_final, compression_type }
    }
}

/// The header of the block at bit `pos`, and the position after it.
pub open spec fn block_header_at(data: Seq<u8>, pos: nat) -> Result<(BlockHeader, nat), DecodeError> {
    if pos + 3 > 8 * data.len() {
        Err(DecodeError::UnexpectedEof)
    } else {
        Ok((header_of(lsb_value(data, pos, 3)), pos + 3))
    }
}

/// Reads the three header bits of a block.
pub fn read_block_header(bits: &mut BitStream) -> (r: Result<BlockHeader, DecodeError>)
    requires
        old(bits).wf(),
    ensures
        final(bits).wf(),
        final(bits).data() == old(bits).data(),
        match block_header_at(old(bits).data(), old(bits).pos()) {
            Ok((h, p)) => r == Ok::<BlockHeader, DecodeError>(h) && final(bits).pos() == p,
            Err(e) => r == Err::<BlockHeader, DecodeError>(e),
        },
{
    let header_bits = match bits.read_bits(3, BitOrder::LsbFirst) {
        Ok(v) => v,
        Err(e) => {
            return Err(e);
        },
    };
    proof {
        crate::fiddling::lemma_bits_value_bound(old(bits).data(), old(bits).pos(), 3, BitOrder::LsbFirst);
        vstd::arithmetic::power2::lemma2_to64();
    }
    Ok(BlockHeader::from_header_bits(header_bits as u8))
}

/// The little-endian 16-bit value of the two bytes at byte `i`.
pub open spec fn u16_at(data: Seq<u8>, i: int) -> nat {
    data[i] as nat + 256 * data[i + 1] as nat
}

/// A stored block that starts (after its header) at bit `pos`: the output extended by its
/// bytes, and the position after it.
pub open spec fn stored_block(data: Seq<u8>, pos: nat, out: Seq<u8>) -> Result<(Seq<u8>, nat), DecodeError> {
    let a = next_boundary(pos);
    let i = (a / 8) as int;
    if a + 32 > 8 * data.len() {
        Err(DecodeError::UnexpectedEof)
    } else if (u16_at(data, i) as u16) & (u16_at(data, i + 2) as u16) != 0 {
        Err(DecodeError::LenNlenMismatch)
    } else if i + 4 + u16_at(data, i) > data.len() {
        Err(DecodeError::UnexpectedEof)
    } else {
        Ok((out + data.subrange(i + 4, i + 4 + u16_at(data, i)), a + 32 + 8 * u16_at(data, i)))
    }
}

spec fn start_of(p: nat) -> int {
    (p / 8) as int
}

proof fn lemma_boundary(pos: nat)
    ensures
        next_boundary(pos) % 8 == 0,
        pos <= next_boundary(pos),
{
}

/// Appends the next `n` bytes of the input, read from a byte boundary.
pub fn copy_bytes(bits: &mut BitStream, out_bytes: &mut Vec<u8>, n: u16) -> (r: Result<(), DecodeError>)
    requires
        old(bits).wf(),
        old(bits).pos() % 8 == 0,
    ensures
        final(bits).wf(),
        final(bits).data() == old(bits).data(),
        match r {
            Ok(()) => {
                &&& old(bits).pos() / 8 + n <= old(bits).data().len()
                &&& final(out_bytes)@ == old(out_bytes)@ + old(bits).data().subrange(
                    (old(bits).pos() / 8) as int,
                    (old(bits).pos() / 8 + n) as int,
                )
                &&& final(bits).pos() == old(bits).pos() + 8 * n
            },
            Err(e) => old(bits).pos() / 8 + n > old(bits).data().len() && e
                == DecodeError::UnexpectedEof,
        },
{
    let ghost data = bits.data();
    let ghost start_pos = bits.pos();
    proof {
        bits.lemma_pos_bound();
        assert(data.subrange(start_of(start_pos), start_of(start_pos)) =~= Seq::<u8>::empty());
        assert(out_bytes@ + Seq::<u8>::empty() =~= out_bytes@);
    }
    let ghost start = (bits.pos() / 8) as int;
    let mut i: u16 = 0;
    while i < n
        invariant
            0 <= i <= n,
            bits.wf(),
            bits.data() == data,
            data == old(bits).data(),
            start == old(bits).pos() / 8,
            old(bits).pos() % 8 == 0,
            bits.pos() == old(bits).pos() + 8 * i,
            start + i <= data.len(),
            start_pos == old(bits).pos(),
            out_bytes@ == old(out_bytes)@ + data.subrange(start, start + i),
        decreases n - i,
    {
        proof {
            let q = bits.pos();
            assert(q % 8 == 0) by (nonlinear_arith)
                requires
                    q == start_pos + 8 * i,
                    start_pos % 8 == 0,
            ;
            assert(q / 8 == start + i) by (nonlinear_arith)
                requires
                    q == start_pos + 8 * i,
                    start_pos % 8 == 0,
                    start == start_pos / 8,
            ;
        }
        match bits.read_next_byte() {
            Ok(b) => {
                proof {
                    assert(data.subrange(start, start + i + 1) =~= data.subrange(start, start + i).push(b));
                }
                out_bytes.push(b);
            },
            Err(e) => {
                proof {
                    assert(start + n > data.len());
                }
                return Err(e);
            },
        }
        i = i + 1;
    }
    Ok(())
}

/// Copies a stored block: aligns to a byte boundary, reads LEN and NLEN, and appends LEN bytes.
pub fn copy_uncompressed_block(bits: &mut BitStream, out_bytes: &mut Vec<u8>) -> (r: Result<(), DecodeError>)
    requires
        old(bits).wf(),
    ensures
        final(bits).wf(),
        final(bits).data() == old(bits).data(),
        match stored_block(old(bits).data(), old(bits).pos(), old(out_bytes)@) {
            Ok((o, p)) => r is Ok && final(out_bytes)@ == o && final(bits).pos() == p,
            Err(e) => r == Err::<(), DecodeError>(e),
        },
{
    let ghost data = bits.data();
    let ghost a = next_boundary(bits.pos());
    proof {
        lemma_boundary(bits.pos());
    }
    let len = match bits.read_u16_le() {
        Ok(v) => v,
        Err(e) => {
            return Err(e);
        },
    };
    let nlen = match bits.read_u16_le() {
        Ok(v) => v,
        Err(e) => {
            proof {
                assert(next_boundary(a + 16) == a + 16);
            }
            return Err(e);
        },
    };
    proof {
        assert(next_boundary(a + 16) == a + 16);
        assert((a + 16) / 8 == a / 8 + 2) by (nonlinear_arith)
            requires
                a % 8 == 0,
        ;
    }
    if len & nlen != 0 {
        return Err(DecodeError::LenNlenMismatch);
    }
    proof {
        assert((a + 32) / 8 == a / 8 + 4) by (nonlinear_arith)
            requires
                a % 8 == 0,
        ;
        assert((a + 32) % 8 == 0) by (nonlinear_arith)
            requires
                a % 8 == 0,
        ;
    }
    copy_bytes(bits, out_bytes, len)
}

/// Extra bits of length code `257 + i` (RFC 1951, section 3.2.5).
pub open spec fn length_extra(i: nat) -> nat {
    if i == 0 {
        0
    } else if i == 1 {
        0
    } else if i == 2 {
        0
    } else if i == 3 {
        0
    } else if i == 4 {
        0
    } else if i == 5 {
        0
    } else if i == 6 {
        0
    } else if i == 7 {
        0
    } else if i == 8 {
        1
    } else if i == 9 {
        1
    } else if i == 10 {
        1
    } else if i == 11 {
        1
    } else if i == 12 {
        2
    } else if i == 13 {
        2
    } else if i == 14 {
        2
    } else if i == 15 {
        2
    } else if i == 16 {
        3
    } else if i == 17 {
        3
    } else if i == 18 {
        3
    } else if i == 19 {
        3
    } else if i == 20 {
        4
    } else if i == 21 {
        4
    } else if i == 22 {
        4
    } else if i == 23 {
        4
    } else if i == 24 {
        5
    } else if i == 25 {
        5
    } else if i == 26 {
        5
    } else if i == 27 {
        5
    } else {
        0
    }
}

/// Base length of length code `257 + i` (RFC 1951, section 3.2.5).
pub open spec fn length_base(i: nat) -> nat {
    if i == 0 {
        3
    } else if i == 1 {
        4
    } else if i == 2 {
        5
    } else if i == 3 {
        6
    } else if i == 4 {
        7
    } else if i == 5 {
        8
    } else if i == 6 {
        9
    } else if i == 7 {
        10
    } else if i == 8 {
        11
    } else if i == 9 {
        13
    } else if i == 10 {
        15
    } else if i == 11 {
        17
    } else if i == 12 {
        19
    } else if i == 13 {
        23
    } else if i == 14 {
        27
    } else if i == 15 {
        31
    } else if i == 16 {
        35
    } else if i == 17 {
        43
    } else if i == 18 {
        51
    } else if i == 19 {
        59
    } else if i == 20 {
        67
    } else if i == 21 {
        83
    } else if i == 22 {
        99
    } else if i == 23 {
        115
    } else if i == 24 {
        131
    } else if i == 25 {
        163
    } else if i == 26 {
        195
    } else if i == 27 {
        227
    } else {
        258
    }
}

/// Extra bits of distance code `i` (RFC 1951, section 3.2.5).
pub open spec fn distance_extra(i: nat) -> nat {
    if i == 0 {
        0
    } else if i == 1 {
        0
    } else if i == 2 {
        0
    } else if i == 3 {
        0
    } else if i == 4 {
        1
    } else if i == 5 {
        1
    } else if i == 6 {
        2
    } else if i == 7 {
        2
    } else if i == 8 {
        3
    } else if i == 9 {
        3
    } else if i == 10 {
        4
    } else if i == 11 {
        4
    } else if i == 12 {
        5
    } else if i == 13 {
        5
    } else if i == 14 {
        6
    } else if i == 15 {
        6
    } else if i == 16 {
        7
    } else if i == 17 {
        7
    } else if i == 18 {
        8
    } else if i == 19 {
        8
    } else if i == 20 {
        9
    } else if i == 21 {
        9
    } else if i == 22 {
        10
    } else if i == 23 {
        10
    } else if i == 24 {
        11
    } else if i == 25 {
        11
    } else if i == 26 {
        12
    } else if i == 27 {
        12
    } else if i == 28 {
        13
    } else {
        13
    }
}

/// Base distance of distance code `i` (RFC 1951, section 3.2.5).
pub open spec fn distance_base(i: nat) -> nat {
    if i == 0 {
        1
    } else if i == 1 {
        2
    } else if i == 2 {
        3
    } else if i == 3 {
        4
    } else if i == 4 {
        5
    } else if i == 5 {
        7
    } else if i == 6 {
        9
    } else if i == 7 {
        13
    } else if i == 8 {
        17
    } else if i == 9 {
        25
    } else if i == 10 {
        33
    } else if i == 11 {
        49
    } else if i == 12 {
        65
    } else if i == 13 {
        97
    } else if i == 14 {
        129
    } else if i == 15 {
        193
    } else if i == 16 {
        257
    } else if i == 17 {
        385
    } else if i == 18 {
        513
    } else if i == 19 {
        769
    } else if i == 20 {
        1025
    } else if i == 21 {
        1537
    } else if i == 22 {
        2049
    } else if i == 23 {
        3073
    } else if i == 24 {
        4097
    } else if i == 25 {
        6145
    } else if i == 26 {
        8193
    } else if i == 27 {
        12289
    } else if i == 28 {
        16385
    } else {
        24577
    }
}

fn length_tables(i: u16) -> (r: (u16, usize))
    requires
        i < 29,
    ensures
        r.0 as nat == length_base(i as nat),
        r.1 as nat == length_extra(i as nat),
{
    match i {
        0 => (3, 0),
        1 => (4, 0),
        2 => (5, 0),
        3 => (6, 0),
        4 => (7, 0),
        5 => (8, 0),
        6 => (9, 0),
        7 => (10, 0),
        8 => (11, 1),
        9 => (13, 1),
        10 => (15, 1),
        11 => (17, 1),
        12 => (19, 2),
        13 => (23, 2),
        14 => (27, 2),
        15 => (31, 2),
        16 => (35, 3),
        17 => (43, 3),
        18 => (51, 3),
        19 => (59, 3),
        20 => (67, 4),
        21 => (83, 4),
        22 => (99, 4),
        23 => (115, 4),
        24 => (131, 5),
        25 => (163, 5),
        26 => (195, 5),
        27 => (227, 5),
        _ => (258, 0),
    }
}

fn distance_tables(i: u16) -> (r: (u16, usize))
    requires
        i < 30,
    ensures
        r.0 as nat == distance_base(i as nat),
        r.1 as nat == distance_extra(i as nat),
{
    match i {
        0 => (1, 0),
        1 => (2, 0),
        2 => (3, 0),
        3 => (4, 0),
        4 => (5, 1),
        5 => (7, 1),
        6 => (9, 2),
        7 => (13, 2),
        8 => (17, 3),
        9 => (25, 3),
        10 => (33, 4),
        11 => (49, 4),
        12 => (65, 5),
        13 => (97, 5),
        14 => (129, 6),
        15 => (193, 6),
        16 => (257, 7),
        17 => (385, 7),
        18 => (513, 8),
        19 => (769, 8),
        20 => (1025, 9),
        21 => (1537, 9),
        22 => (2049, 10),
        23 => (3073, 10),
        24 => (4097, 11),
        25 => (6145, 11),
        26 => (8193, 12),
        27 => (12289, 12),
        28 => (16385, 13),
        _ => (24577, 13),
    }
}

/// A decoded DEFLATE symbol.
#[derive(PartialEq, Eq, Debug, Clone, Copy, Structural)]
pub enum DeflateSymbol {
    Literal(u8),
    LengthAndDistance(u16, u16),
    EndOfData,
}

/// The error of a Huffman decode that found no entry at `pos`.
pub open spec fn decode_error(lens: Seq<u8>, data: Seq<u8>, pos: nat) -> DecodeError {
    if pos + max_len(lens) > 8 * data.len() {
        DecodeError::UnexpectedEof
    } else {
        DecodeError::NoMatchingCode
    }
}

/// The symbol of `alphabet` at `pos`, and the position after its code.
pub open spec fn huffman_symbol_at<S>(alphabet: Seq<(S, u8)>, data: Seq<u8>, pos: nat) -> Result<(S, nat), DecodeError> {
    match decode_at(lens_of(alphabet), data, pos) {
        Some(i) => Ok((alphabet[i as int].0, pos + alphabet[i as int].1 as nat)),
        None => Err(decode_error(lens_of(alphabet), data, pos)),
    }
}

/// The length of length code `symbol` with its extra bits at `pos`, and the position after.
pub open spec fn length_at(symbol: u16, data: Seq<u8>, pos: nat) -> Result<(nat, nat), DecodeError> {
    let i = (symbol - 257) as nat;
    if pos + length_extra(i) > 8 * data.len() {
        Err(DecodeError::UnexpectedEof)
    } else {
        Ok((length_base(i) + lsb_value(data, pos, length_extra(i)), pos + length_extra(i)))
    }
}

/// The distance coded at `pos` with `distances`, and the position after it.
pub open spec fn distance_at(distances: Seq<(u16, u8)>, data: Seq<u8>, pos: nat) -> Result<(nat, nat), DecodeError> {
    match huffman_symbol_at(distances, data, pos) {
        Err(e) => Err(e),
        Ok((d, p)) => if d >= 30 {
            Err(DecodeError::InvalidSymbol)
        } else if p + distance_extra(d as nat) > 8 * data.len() {
            Err(DecodeError::UnexpectedEof)
        } else {
            Ok(
                (
                    distance_base(d as nat) + lsb_value(data, p, distance_extra(d as nat)),
                    p + distance_extra(d as nat),
                ),
            )
        },
    }
}

/// The DEFLATE symbol at `pos`, and the position after it.
pub open spec fn symbol_at(literals: Seq<(u16, u8)>, distances: Seq<(u16, u8)>, data: Seq<u8>, pos: nat) -> Result<(DeflateSymbol, nat), DecodeError> {
    match huffman_symbol_at(literals, data, pos) {
        Err(e) => Err(e),
        Ok((s, p)) => if s < 256 {
            Ok((DeflateSymbol::Literal(s as u8), p))
        } else if s == 256 {
            Ok((DeflateSymbol::EndOfData, p))
        } else if s <= 285 {
            match length_at(s, data, p) {
                Err(e) => Err(e),
                Ok((l, next_pos)) => match distance_at(distances, data, next_pos) {
                    Err(e) => Err(e),
                    Ok((d, end_pos)) => Ok((DeflateSymbol::LengthAndDistance(l as u16, d as u16), end_pos)),
                },
            }
        } else {
            Err(DecodeError::InvalidSymbol)
        },
    }
}

proof fn lemma_length_bound(i: nat, data: Seq<u8>, pos: nat)
    requires
        i < 29,
    ensures
        length_base(i) + lsb_value(data, pos, length_extra(i)) <= 258,
        length_extra(i) <= 5,
{
    crate::fiddling::lemma_bits_value_bound(data, pos, length_extra(i), BitOrder::LsbFirst);
    vstd::arithmetic::power2::lemma2_to64();
}

proof fn lemma_distance_bound(i: nat, data: Seq<u8>, pos: nat)
    requires
        i < 30,
    ensures
        distance_base(i) + lsb_value(data, pos, distance_extra(i)) <= 32768,
        distance_extra(i) <= 13,
{
    crate::fiddling::lemma_bits_value_bound(data, pos, distance_extra(i), BitOrder::LsbFirst);
    vstd::arithmetic::power2::lemma2_to64();
}

/// The length that length code `length_symbol` and its extra bits give.
pub fn read_length(bits: &mut BitStream, length_symbol: u16) -> (r: Result<u16, DecodeError>)
    requires
        old(bits).wf(),
        257 <= length_symbol <= 285,
    ensures
        final(bits).wf(),
        final(bits).data() == old(bits).data(),
        match length_at(length_symbol, old(bits).data(), old(bits).pos()) {
            Ok((l, p)) => r == Ok::<u16, DecodeError>(l as u16) && final(bits).pos() == p,
            Err(e) => r == Err::<u16, DecodeError>(e),
        },
{
    let (base_length, extra_bits) = length_tables(length_symbol - 257);
    proof {
        lemma_length_bound((length_symbol - 257) as nat, bits.data(), bits.pos());
    }
    match bits.read_bits(extra_bits, BitOrder::LsbFirst) {
        Ok(v) => Ok(base_length + v as u16),
        Err(e) => Err(e),
    }
}

/// The distance that the next distance code and its extra bits give.
pub fn read_distance(bits: &mut BitStream, distance_alphabet: &HuffmanAlphabet<u16>) -> (r: Result<u16, DecodeError>)
    requires
        old(bits).wf(),
        distance_alphabet.wf(),
    ensures
        final(bits).wf(),
        final(bits).data() == old(bits).data(),
        match distance_at(distance_alphabet.pairs(), old(bits).data(), old(bits).pos()) {
            Ok((d, p)) => r == Ok::<u16, DecodeError>(d as u16) && final(bits).pos() == p,
            Err(e) => r == Err::<u16, DecodeError>(e),
        },
{
    let raw_distance = match distance_alphabet.read_next(bits) {
        Ok(s) => s,
        Err(e) => {
            return Err(e);
        },
    };
    if raw_distance >= 30 {
        return Err(DecodeError::InvalidSymbol);
    }
    let (base_distance, extra_bits) = distance_tables(raw_distance);
    proof {
        lemma_distance_bound(raw_distance as nat, bits.data(), bits.pos());
    }
    match bits.read_bits(extra_bits, BitOrder::LsbFirst) {
        Ok(v) => Ok(base_distance + v as u16),
        Err(e) => Err(e),
    }
}

/// A length code with its extra bits, then a distance code with its extra bits.
pub fn read_length_and_distance(
    bits: &mut BitStream,
    length_symbol: u16,
    distance_alphabet: &HuffmanAlphabet<u16>,
) -> (r: Result<DeflateSymbol, DecodeError>)
    requires
        old(bits).wf(),
        distance_alphabet.wf(),
        257 <= length_symbol <= 285,
    ensures
        final(bits).wf(),
        final(bits).data() == old(bits).data(),
        match length_at(length_symbol, old(bits).data(), old(bits).pos()) {
            Err(e) => r == Err::<DeflateSymbol, DecodeError>(e),
            Ok((l, next_pos)) => match distance_at(distance_alphabet.pairs(), old(bits).data(), next_pos) {
                Err(e) => r == Err::<DeflateSymbol, DecodeError>(e),
                Ok((d, end_pos)) => r == Ok::<DeflateSymbol, DecodeError>(
                    DeflateSymbol::LengthAndDistance(l as u16, d as u16),
                ) && final(bits).pos() == end_pos,
            },
        },
{
    let length = match read_length(bits, length_symbol) {
        Ok(l) => l,
        Err(e) => {
            return Err(e);
        },
    };
    let distance = match read_distance(bits, distance_alphabet) {
        Ok(d) => d,
        Err(e) => {
            return Err(e);
        },
    };
    Ok(DeflateSymbol::LengthAndDistance(length, distance))
}

/// The next DEFLATE symbol: a literal byte, a length and distance pair, or the end of the
/// block.
pub fn read_deflate_symbol(
    bits: &mut BitStream,
    literal_alphabet: &HuffmanAlphabet<u16>,
    distance_alphabet: &HuffmanAlphabet<u16>,
) -> (r: Result<DeflateSymbol, DecodeError>)
    requires
        old(bits).wf(),
        literal_alphabet.wf(),
        distance_alphabet.wf(),
    ensures
        final(bits).wf(),
        final(bits).data() == old(bits).data(),
        match symbol_at(literal_alphabet.pairs(), distance_alphabet.pairs(), old(bits).data(), old(bits).pos()) {
            Ok((s, p)) => r == Ok::<DeflateSymbol, DecodeError>(s) && final(bits).pos() == p,
            Err(e) => r == Err::<DeflateSymbol, DecodeError>(e),
        },
{
    let raw_symbol = match literal_alphabet.read_next(bits) {
        Ok(s) => s,
        Err(e) => {
            return Err(e);
        },
    };
    if raw_symbol < 256 {
        Ok(DeflateSymbol::Literal(raw_symbol as u8))
    } else if raw_symbol == 256 {
        Ok(DeflateSymbol::EndOfData)
    } else if raw_symbol <= 285 {
        read_length_and_distance(bits, raw_symbol, distance_alphabet)
    } else {
        Err(DecodeError::InvalidSymbol)
    }
}

/// The `length` bytes that a back-reference of `distance` appends to `out`: the copy reads
/// the bytes it writes itself, so the last `distance` bytes of `out` repeat.
pub open spec fn back_reference(out: Seq<u8>, length: nat, distance: nat) -> Seq<u8> {
    Seq::new(length, |i: int| out[out.len() - distance + (i % (distance as int))])
}

/// Appends the `length` bytes of a back-reference `distance` bytes behind the end of the
/// output, byte by byte, so that the copy may overlap what it writes.
pub fn copy_back_reference(out_buf: &mut Vec<u8>, length: u16, distance: u16) -> (r: Result<(), DecodeError>)
    ensures
        match r {
            Ok(()) => 1 <= distance <= old(out_buf)@.len() && final(out_buf)@ == old(out_buf)@
                + back_reference(old(out_buf)@, length as nat, distance as nat),
            Err(e) => (distance == 0 || distance > old(out_buf)@.len()) && e
                == DecodeError::DistanceTooFar && final(out_buf)@ == old(out_buf)@,
        },
{
    let current = out_buf.len();
    if distance == 0 || distance as usize > current {
        return Err(DecodeError::DistanceTooFar);
    }
    let ghost old_out = out_buf@;
    let mut i: u16 = 0;
    while i < length
        invariant
            0 <= i <= length,
            old_out == old(out_buf)@,
            current == old_out.len(),
            1 <= distance <= current,
            out_buf@ == old_out + back_reference(old_out, i as nat, distance as nat),
        decreases length - i,
    {
        proof {
            assert(out_buf@.len() == current + i);
            if i >= distance {
                assert(((i - distance) as int) % (distance as int) == (i as int) % (distance as int)) by {
                    vstd::arithmetic::div_mod::lemma_mod_sub_multiples_vanish(i as int, distance as int);
                }
            } else {
                vstd::arithmetic::div_mod::lemma_small_mod(i as nat, distance as nat);
            }
        }
        let b = out_buf[out_buf.len() - distance as usize];
        out_buf.push(b);
        proof {
            assert(out_buf@ =~= old_out + back_reference(old_out, (i + 1) as nat, distance as nat));
        }
        i = i + 1;
    }
    Ok(())
}

/// Decoding a block coded with `literals` and `distances` from bit `pos` on, with `out` as the
/// output so far: the output at the end of the block, and the position after it. (The guard on
/// the position is never taken with codes at least one bit long.)
pub open spec fn huffman_block(literals: Seq<(u16, u8)>, distances: Seq<(u16, u8)>, data: Seq<u8>, pos: nat, out: Seq<u8>) -> Result<(Seq<u8>, nat), DecodeError>
    decreases 8 * data.len() - pos,
{
    match symbol_at(literals, distances, data, pos) {
        Err(e) => Err(e),
        Ok((s, p)) => if p <= pos || p > 8 * data.len() {
            Err(DecodeError::InvalidSymbol)
        } else {
            match s {
                DeflateSymbol::EndOfData => Ok((out, p)),
                DeflateSymbol::Literal(b) => huffman_block(literals, distances, data, p, out.push(b)),
                DeflateSymbol::LengthAndDistance(l, d) => if d == 0 || d > out.len() {
                    Err(DecodeError::DistanceTooFar)
                } else {
                    huffman_block(
                        literals,
                        distances,
                        data,
                        p,
                        out + back_reference(out, l as nat, d as nat),
                    )
                },
            }
        },
    }
}

proof fn lemma_symbol_advances(literals: &HuffmanAlphabet<u16>, distances: &HuffmanAlphabet<u16>, data: Seq<u8>, pos: nat)
    requires
        literals.wf(),
    ensures
        match symbol_at(literals.pairs(), distances.pairs(), data, pos) {
            Ok((s, p)) => p > pos,
            Err(_) => true,
        },
{
    literals.lemma_wf_prefix();
    crate::huffman::lemma_decode_at_range(lens_of(literals.pairs()), data, pos);
    match decode_at(lens_of(literals.pairs()), data, pos) {
        Some(i) => {
            assert(literals.pairs()[i as int].1 >= 1);
        },
        None => {},
    }
}

/// Decodes the symbols of one Huffman-coded block into `out_buf`, up to and including its
/// end-of-block symbol.
pub fn copy_huffman_block(
    bits: &mut BitStream,
    out_buf: &mut Vec<u8>,
    literal_alphabet: &HuffmanAlphabet<u16>,
    distance_alphabet: &HuffmanAlphabet<u16>,
) -> (r: Result<(), DecodeError>)
    requires
        old(bits).wf(),
        literal_alphabet.wf(),
        distance_alphabet.wf(),
    ensures
        final(bits).wf(),
        final(bits).data() == old(bits).data(),
        match huffman_block(literal_alphabet.pairs(), distance_alphabet.pairs(), old(bits).data(), old(bits).pos(), old(out_buf)@) {
            Ok((o, p)) => r is Ok && final(out_buf)@ == o && final(bits).pos() == p,
            Err(e) => r == Err::<(), DecodeError>(e),
        },
{
    let ghost lits = literal_alphabet.pairs();
    let ghost dists = distance_alphabet.pairs();
    let ghost data = bits.data();
    loop
        invariant
            bits.wf(),
            literal_alphabet.wf(),
            distance_alphabet.wf(),
            lits == literal_alphabet.pairs(),
            dists == distance_alphabet.pairs(),
            bits.data() == data,
            data == old(bits).data(),
            huffman_block(lits, dists, data, bits.pos(), out_buf@) == huffman_block(lits, dists, data, old(bits).pos(), old(out_buf)@),
        decreases 8 * data.len() - bits.pos(),
    {
        let ghost pos = bits.pos();
        proof {
            bits.lemma_pos_bound();
            lemma_symbol_advances(literal_alphabet, distance_alphabet, data, pos);
        }
        let symbol = match read_deflate_symbol(bits, literal_alphabet, distance_alphabet) {
            Ok(s) => s,
            Err(e) => {
                return Err(e);
            },
        };
        proof {
            bits.lemma_pos_bound();
        }
        match symbol {
            DeflateSymbol::Literal(value) => {
                out_buf.push(value);
            },
            DeflateSymbol::LengthAndDistance(length, distance) => {
                match copy_back_reference(out_buf, length, distance) {
                    Ok(()) => {},
                    Err(e) => {
                        return Err(e);
                    },
                }
            },
            DeflateSymbol::EndOfData => {
                return Ok(());
            },
        }
    }
}

/// Decodes one block coded with the fixed alphabets.
pub fn copy_static_huffman_block(bits: &mut BitStream, out_buf: &mut Vec<u8>) -> (r: Result<(), DecodeError>)
    requires
        old(bits).wf(),
    ensures
        final(bits).wf(),
        final(bits).data() == old(bits).data(),
        match huffman_block(nonzero(fixed_literal_pairs()), nonzero(fixed_distance_pairs()), old(bits).data(), old(bits).pos(), old(out_buf)@) {
            Ok((o, p)) => r is Ok && final(out_buf)@ == o && final(bits).pos() == p,
            Err(e) => r == Err::<(), DecodeError>(e),
        },
{
    let literals = HuffmanAlphabet::static_alphabet();
    let distances = HuffmanAlphabet::static_distance_alphabet();
    copy_huffman_block(bits, out_buf, &literals, &distances)
}

/// One instruction of the code-length language of a dynamic block.
#[derive(PartialEq, Eq, Debug, Clone, Copy, Structural)]
pub enum ExtractAction {
    /// The next symbol has this code length.
    CodeLength(u8),
    /// The previous code length repeats this many times.
    CopyLastLength(u8),
    /// A code length of zero repeats this many times.
    RepeatZero(u8),
}

/// The instruction coded at `pos` with the code-length alphabet `cl`, and the position after
/// it.
pub open spec fn action_at(cl: Seq<(u8, u8)>, data: Seq<u8>, pos: nat) -> Result<(ExtractAction, nat), DecodeError> {
    match huffman_symbol_at(cl, data, pos) {
        Err(e) => Err(e),
        Ok((s, p)) => if s <= 15 {
            Ok((ExtractAction::CodeLength(s), p))
        } else if s == 16 {
            if p + 2 > 8 * data.len() {
                Err(DecodeError::UnexpectedEof)
            } else {
                Ok((ExtractAction::CopyLastLength((lsb_value(data, p, 2) + 3) as u8), p + 2))
            }
        } else if s == 17 {
            if p + 3 > 8 * data.len() {
                Err(DecodeError::UnexpectedEof)
            } else {
                Ok((ExtractAction::RepeatZero((lsb_value(data, p, 3) + 3) as u8), p + 3))
            }
        } else if s == 18 {
            if p + 7 > 8 * data.len() {
                Err(DecodeError::UnexpectedEof)
            } else {
                Ok((ExtractAction::RepeatZero((lsb_value(data, p, 7) + 11) as u8), p + 7))
            }
        } else {
            Err(DecodeError::InvalidSymbol)
        },
    }
}

impl ExtractAction {
    /// Decodes the next instruction of the code-length language.
    pub fn from_bit_stream(bits: &mut BitStream, alphabet: &HuffmanAlphabet<u8>) -> (r: Result<ExtractAction, DecodeError>)
        requires
            old(bits).wf(),
            alphabet.wf(),
        ensures
            final(bits).wf(),
            final(bits).data() == old(bits).data(),
            match action_at(alphabet.pairs(), old(bits).data(), old(bits).pos()) {
                Ok((a, p)) => r == Ok::<ExtractAction, DecodeError>(a) && final(bits).pos() == p,
                Err(e) => r == Err::<ExtractAction, DecodeError>(e),
            },
    {
        let s = match alphabet.read_next(bits) {
            Ok(s) => s,
            Err(e) => {
                return Err(e);
            },
        };
        proof {
            vstd::arithmetic::power2::lemma2_to64();
            crate::fiddling::lemma_bits_value_bound(bits.data(), bits.pos(), 2, BitOrder::LsbFirst);
            crate::fiddling::lemma_bits_value_bound(bits.data(), bits.pos(), 3, BitOrder::LsbFirst);
            crate::fiddling::lemma_bits_value_bound(bits.data(), bits.pos(), 7, BitOrder::LsbFirst);
        }
        if s <= 15 {
            Ok(ExtractAction::CodeLength(s))
        } else if s == 16 {
            match bits.read_bits(2, BitOrder::LsbFirst) {
                Ok(v) => Ok(ExtractAction::CopyLastLength((v + 3) as u8)),
                Err(e) => Err(e),
            }
        } else if s == 17 {
            match bits.read_bits(3, BitOrder::LsbFirst) {
                Ok(v) => Ok(ExtractAction::RepeatZero((v + 3) as u8)),
                Err(e) => Err(e),
            }
        } else if s == 18 {
            match bits.read_bits(7, BitOrder::LsbFirst) {
                Ok(v) => Ok(ExtractAction::RepeatZero((v + 11) as u8)),
                Err(e) => Err(e),
            }
        } else {
            Err(DecodeError::InvalidSymbol)
        }
    }
}

/// `t` copies of `x`.
pub open spec fn repeated(x: u8, t: nat) -> Seq<u8> {
    Seq::new(t, |j: int| x)
}

/// The code lengths that the instructions from `pos` on give, added to `acc` until there are
/// `size` of them, and the position after the last instruction.
pub open spec fn code_lengths_from(cl: Seq<(u8, u8)>, data: Seq<u8>, pos: nat, size: nat, acc: Seq<u8>) -> Result<(Seq<u8>, nat), DecodeError>
    decreases size - acc.len(),
{
    if acc.len() >= size {
        Ok((acc, pos))
    } else {
        match action_at(cl, data, pos) {
            Err(e) => Err(e),
            Ok((a, p)) => match a {
                ExtractAction::CodeLength(l) => code_lengths_from(cl, data, p, size, acc.push(l)),
                ExtractAction::CopyLastLength(t) => if acc.len() == 0 {
                    Err(DecodeError::RepeatWithoutPrevious)
                } else if t == 0 || acc.len() + t > size {
                    Err(DecodeError::TooManyCodeLengths)
                } else {
                    code_lengths_from(cl, data, p, size, acc + repeated(acc.last(), t as nat))
                },
                ExtractAction::RepeatZero(t) => if t == 0 || acc.len() + t > size {
                    Err(DecodeError::TooManyCodeLengths)
                } else {
                    code_lengths_from(cl, data, p, size, acc + repeated(0, t as nat))
                },
            },
        }
    }
}

/// Code lengths numbered by their symbols.
pub open spec fn indexed(lens: Seq<u8>) -> Seq<(u16, u8)> {
    Seq::new(lens.len(), |k: int| (k as u16, lens[k]))
}

proof fn lemma_indexed_extend(lens: Seq<u8>, more: Seq<u8>)
    ensures
        indexed(lens + more) == indexed(lens) + Seq::new(
            more.len(),
            |j: int| ((lens.len() + j) as u16, more[j]),
        ),
{
    assert(indexed(lens + more) =~= indexed(lens) + Seq::new(
        more.len(),
        |j: int| ((lens.len() + j) as u16, more[j]),
    ));
}

/// Repeats the last code length `times` times, for the symbols from `cl_symbol` on.
pub fn copy_last_length(times: u8, literal_code_lengths: &mut Vec<(u16, u8)>, cl_symbol: &mut u16) -> (r: Result<(), DecodeError>)
    requires
        old(literal_code_lengths)@.len() == *old(cl_symbol),
        *old(cl_symbol) + times <= 288,
    ensures
        match r {
            Ok(()) => {
                &&& old(literal_code_lengths)@.len() > 0
                &&& final(literal_code_lengths)@ == old(literal_code_lengths)@ + Seq::new(
                    times as nat,
                    |j: int| ((*old(cl_symbol) + j) as u16, old(literal_code_lengths)@.last().1),
                )
                &&& *final(cl_symbol) == *old(cl_symbol) + times
            },
            Err(e) => old(literal_code_lengths)@.len() == 0 && e == DecodeError::RepeatWithoutPrevious,
        },
{
    let n = literal_code_lengths.len();
    if n == 0 {
        return Err(DecodeError::RepeatWithoutPrevious);
    }
    let length = literal_code_lengths[n - 1].1;
    let ghost start = literal_code_lengths@;
    let mut i: u8 = 0;
    while i < times
        invariant
            0 <= i <= times,
            start == old(literal_code_lengths)@,
            start.len() == *old(cl_symbol),
            *old(cl_symbol) + times <= 288,
            length == start.last().1,
            *cl_symbol == *old(cl_symbol) + i,
            literal_code_lengths@ == start + Seq::new(
                i as nat,
                |j: int| ((*old(cl_symbol) + j) as u16, length),
            ),
        decreases times - i,
    {
        literal_code_lengths.push((*cl_symbol, length));
        *cl_symbol = *cl_symbol + 1;
        i = i + 1;
        proof {
            assert(literal_code_lengths@ =~= start + Seq::new(
                i as nat,
                |j: int| ((*old(cl_symbol) + j) as u16, length),
            ));
        }
    }
    Ok(())
}

/// Gives the `times` symbols from `cl_symbol` on a code length of zero.
pub fn repeat_zero(times: u8, literal_code_lengths: &mut Vec<(u16, u8)>, cl_symbol: &mut u16) -> (r: Result<(), DecodeError>)
    requires
        *old(cl_symbol) + times <= 288,
    ensures
        r is Ok,
        final(literal_code_lengths)@ == old(literal_code_lengths)@ + Seq::new(
            times as nat,
            |j: int| ((*old(cl_symbol) + j) as u16, 0u8),
        ),
        *final(cl_symbol) == *old(cl_symbol) + times,
{
    let ghost start = literal_code_lengths@;
    let mut i: u8 = 0;
    while i < times
        invariant
            0 <= i <= times,
            start == old(literal_code_lengths)@,
            *old(cl_symbol) + times <= 288,
            *cl_symbol == *old(cl_symbol) + i,
            literal_code_lengths@ == start + Seq::new(
                i as nat,
                |j: int| ((*old(cl_symbol) + j) as u16, 0u8),
            ),
        decreases times - i,
    {
        literal_code_lengths.push((*cl_symbol, 0));
        *cl_symbol = *cl_symbol + 1;
        i = i + 1;
        proof {
            assert(literal_code_lengths@ =~= start + Seq::new(
                i as nat,
                |j: int| ((*old(cl_symbol) + j) as u16, 0u8),
            ));
        }
    }
    Ok(())
}

/// The alphabet of `lens` when they form a prefix code.
pub open spec fn alphabet_of(lens: Seq<u8>) -> Result<Seq<(u16, u8)>, DecodeError> {
    if is_prefix_code_lengths(lens_of(nonzero(indexed(lens)))) {
        Ok(nonzero(indexed(lens)))
    } else {
        Err(DecodeError::InvalidCodeLengths)
    }
}

/// Decodes `alphabet_size` code lengths with the code-length alphabet and builds the alphabet
/// that they give.
pub fn extract_alphabet(
    bits: &mut BitStream,
    alphabet_size: usize,
    cl_alphabet: &HuffmanAlphabet<u8>,
) -> (r: Result<HuffmanAlphabet<u16>, DecodeError>)
    requires
        old(bits).wf(),
        cl_alphabet.wf(),
        alphabet_size <= 288,
    ensures
        final(bits).wf(),
        final(bits).data() == old(bits).data(),
        match code_lengths_from(cl_alphabet.pairs(), old(bits).data(), old(bits).pos(), alphabet_size as nat, Seq::empty()) {
            Err(e) => r == Err::<HuffmanAlphabet<u16>, DecodeError>(e),
            Ok((lens, p)) => match alphabet_of(lens) {
                Err(e) => r == Err::<HuffmanAlphabet<u16>, DecodeError>(e),
                Ok(pairs) => match r {
                    Ok(a) => a.wf() && a.pairs() == pairs && final(bits).pos() == p,
                    Err(_) => false,
                },
            },
        },
{
    let ghost cl = cl_alphabet.pairs();
    let ghost data = bits.data();
    let ghost size = alphabet_size as nat;
    let ghost mut acc: Seq<u8> = Seq::empty();
    let mut literal_code_lengths: Vec<(u16, u8)> = Vec::new();
    let mut cl_symbol: u16 = 0;
    proof {
        assert(indexed(acc) =~= literal_code_lengths@);
    }
    while (cl_symbol as usize) < alphabet_size
        invariant
            bits.wf(),
            cl_alphabet.wf(),
            cl == cl_alphabet.pairs(),
            bits.data() == data,
            data == old(bits).data(),
            size == alphabet_size,
            alphabet_size <= 288,
            acc.len() == cl_symbol,
            cl_symbol <= alphabet_size,
            literal_code_lengths@ == indexed(acc),
            code_lengths_from(cl, data, bits.pos(), size, acc) == code_lengths_from(cl, data, old(bits).pos(), size, Seq::empty()),
        decreases alphabet_size - cl_symbol,
    {
        let action = match ExtractAction::from_bit_stream(bits, cl_alphabet) {
            Ok(a) => a,
            Err(e) => {
                return Err(e);
            },
        };
        match action {
            ExtractAction::CodeLength(length) => {
                proof {
                    lemma_indexed_extend(acc, seq![length]);
                    assert(acc + seq![length] =~= acc.push(length));
                    assert(Seq::new(1, |j: int| ((acc.len() + j) as u16, seq![length][j])) =~= seq![(cl_symbol, length)]);
                    acc = acc.push(length);
                }
                literal_code_lengths.push((cl_symbol, length));
                cl_symbol = cl_symbol + 1;
            },
            ExtractAction::CopyLastLength(times) => {
                if cl_symbol == 0 {
                    return Err(DecodeError::RepeatWithoutPrevious);
                }
                if times == 0 || cl_symbol as usize + times as usize > alphabet_size {
                    return Err(DecodeError::TooManyCodeLengths);
                }
                let ghost before = cl_symbol;
                match copy_last_length(times, &mut literal_code_lengths, &mut cl_symbol) {
                    Ok(()) => {},
                    Err(e) => {
                        return Err(e);
                    },
                }
                proof {
                    let more = repeated(acc.last(), times as nat);
                    lemma_indexed_extend(acc, more);
                    assert(Seq::new(more.len(), |j: int| ((acc.len() + j) as u16, more[j])) =~= Seq::new(
                        times as nat,
                        |j: int| ((before + j) as u16, indexed(acc).last().1),
                    ));
                    acc = acc + more;
                }
            },
            ExtractAction::RepeatZero(times) => {
                if times == 0 || cl_symbol as usize + times as usize > alphabet_size {
                    return Err(DecodeError::TooManyCodeLengths);
                }
                let ghost before = cl_symbol;
                let _ = repeat_zero(times, &mut literal_code_lengths, &mut cl_symbol);
                proof {
                    let more = repeated(0, times as nat);
                    lemma_indexed_extend(acc, more);
                    assert(Seq::new(more.len(), |j: int| ((acc.len() + j) as u16, more[j])) =~= Seq::new(
                        times as nat,
                        |j: int| ((before + j) as u16, 0u8),
                    ));
                    acc = acc + more;
                }
            },
        }
    }
    proof {
        assert(acc.len() == size);
    }
    if !is_prefix_code(literal_code_lengths.as_slice()) {
        return Err(DecodeError::InvalidCodeLengths);
    }
    Ok(HuffmanAlphabet::from_code_lengths(literal_code_lengths.as_slice()))
}

/// The symbol of the code-length alphabet whose length comes `k`-th in a dynamic header.
pub open spec fn code_length_order(k: nat) -> nat {
    if k == 0 {
        16
    } else if k == 1 {
        17
    } else if k == 2 {
        18
    } else if k == 3 {
        0
    } else if k == 4 {
        8
    } else if k == 5 {
        7
    } else if k == 6 {
        9
    } else if k == 7 {
        6
    } else if k == 8 {
        10
    } else if k == 9 {
        5
    } else if k == 10 {
        11
    } else if k == 11 {
        4
    } else if k == 12 {
        12
    } else if k == 13 {
        3
    } else if k == 14 {
        13
    } else if k == 15 {
        2
    } else if k == 16 {
        14
    } else if k == 17 {
        1
    } else {
        15
    }
}

/// The place in a dynamic header of the length of code-length symbol `j`.
pub open spec fn code_length_slot(j: nat) -> nat {
    if j == 0 {
        3
    } else if j == 1 {
        17
    } else if j == 2 {
        15
    } else if j == 3 {
        13
    } else if j == 4 {
        11
    } else if j == 5 {
        9
    } else if j == 6 {
        7
    } else if j == 7 {
        5
    } else if j == 8 {
        4
    } else if j == 9 {
        6
    } else if j == 10 {
        8
    } else if j == 11 {
        10
    } else if j == 12 {
        12
    } else if j == 13 {
        14
    } else if j == 14 {
        16
    } else if j == 15 {
        18
    } else if j == 16 {
        0
    } else if j == 17 {
        1
    } else {
        2
    }
}

fn code_length_index(k: usize) -> (r: usize)
    requires
        k < 19,
    ensures
        r == code_length_order(k as nat),
        r < 19,
        code_length_slot(r as nat) == k,
{
    match k {
        0 => 16,
        1 => 17,
        2 => 18,
        3 => 0,
        4 => 8,
        5 => 7,
        6 => 9,
        7 => 6,
        8 => 10,
        9 => 5,
        10 => 11,
        11 => 4,
        12 => 12,
        13 => 3,
        14 => 13,
        15 => 2,
        16 => 14,
        17 => 1,
        _ => 15,
    }
}

/// The code-length alphabet of a dynamic header whose `hclen` lengths start at `pos`.
pub open spec fn code_length_pairs(data: Seq<u8>, pos: nat, hclen: nat) -> Seq<(u8, u8)> {
    Seq::new(
        19,
        |j: int|
            (
                j as u8,
                if code_length_slot(j as nat) < hclen {
                    lsb_value(data, pos + 3 * code_length_slot(j as nat), 3) as u8
                } else {
                    0u8
                },
            ),
    )
}

/// The literal/length and distance alphabets of the dynamic header at `pos`, and the position
/// after it.
pub open spec fn dynamic_header(data: Seq<u8>, pos: nat) -> Result<(Seq<(u16, u8)>, Seq<(u16, u8)>, nat), DecodeError> {
    if pos + 14 > 8 * data.len() {
        Err(DecodeError::UnexpectedEof)
    } else {
        let hlit = lsb_value(data, pos, 5) + 257;
        let hdist = lsb_value(data, pos + 5, 5) + 1;
        let hclen = lsb_value(data, pos + 10, 4) + 4;
        let p = pos + 14;
        if hlit > 286 {
            Err(DecodeError::InvalidAlphabetSize)
        } else if p + 3 * hclen > 8 * data.len() {
            Err(DecodeError::UnexpectedEof)
        } else if !is_prefix_code_lengths(lens_of(nonzero(code_length_pairs(data, p, hclen)))) {
            Err(DecodeError::InvalidCodeLengths)
        } else {
            let cl = nonzero(code_length_pairs(data, p, hclen));
            match code_lengths_from(cl, data, p + 3 * hclen, hlit, Seq::empty()) {
                Err(e) => Err(e),
                Ok((ll, next_pos)) => match alphabet_of(ll) {
                    Err(e) => Err(e),
                    Ok(literals) => match code_lengths_from(cl, data, next_pos, hdist, Seq::empty()) {
                        Err(e) => Err(e),
                        Ok((dl, end_pos)) => match alphabet_of(dl) {
                            Err(e) => Err(e),
                            Ok(distances) => Ok((literals, distances, end_pos)),
                        },
                    },
                },
            }
        }
    }
}

proof fn lemma_code_length_order()
    ensures
        forall|j: nat| j < 19 ==> code_length_order(#[trigger] code_length_slot(j)) == j,
{
    assert forall|j: nat| j < 19 implies code_length_order(#[trigger] code_length_slot(j)) == j by {
        if j == 0 {
        } else if j == 1 {
        } else if j == 2 {
        } else if j == 3 {
        } else if j == 4 {
        } else if j == 5 {
        } else if j == 6 {
        } else if j == 7 {
        } else if j == 8 {
        } else if j == 9 {
        } else if j == 10 {
        } else if j == 11 {
        } else if j == 12 {
        } else if j == 13 {
        } else if j == 14 {
        } else if j == 15 {
        } else if j == 16 {
        } else if j == 17 {
        } else if j == 18 {
        }
    }
}

/// Reads the `hclen` lengths of the code-length alphabet of a dynamic header, three bits each,
/// into the slots that their order gives.
fn read_code_length_pairs(bits: &mut BitStream, hclen: usize) -> (r: Result<Vec<(u8, u8)>, DecodeError>)
    requires
        old(bits).wf(),
        hclen <= 19,
    ensures
        final(bits).wf(),
        final(bits).data() == old(bits).data(),
        match r {
            Ok(v) => old(bits).pos() + 3 * hclen <= 8 * old(bits).data().len() && v@
                == code_length_pairs(old(bits).data(), old(bits).pos(), hclen as nat) && final(bits).pos()
                == old(bits).pos() + 3 * hclen,
            Err(e) => old(bits).pos() + 3 * hclen > 8 * old(bits).data().len() && e
                == DecodeError::UnexpectedEof,
        },
{
    let ghost data = bits.data();
    let ghost p = bits.pos();
    let mut code_lengths: Vec<(u8, u8)> = Vec::new();
    let mut j: usize = 0;
    while j < 19
        invariant
            0 <= j <= 19,
            code_lengths@ == Seq::new(j as nat, |k: int| (k as u8, 0u8)),
        decreases 19 - j,
    {
        code_lengths.push((j as u8, 0));
        j = j + 1;
        proof {
            assert(code_lengths@ =~= Seq::new(j as nat, |k: int| (k as u8, 0u8)));
        }
    }
    proof {
        assert(code_lengths@ =~= code_length_pairs(data, p, 0));
        lemma_code_length_order();
    }
    let mut i: usize = 0;
    while i < hclen
        invariant
            0 <= i <= hclen <= 19,
            bits.wf(),
            bits.data() == data,
            data == old(bits).data(),
            p == old(bits).pos(),
            bits.pos() == p + 3 * i,
            code_lengths@ == code_length_pairs(data, p, i as nat),
            forall|j: nat| j < 19 ==> code_length_order(#[trigger] code_length_slot(j)) == j,
        decreases hclen - i,
    {
        proof {
            crate::fiddling::lemma_bits_value_bound(data, bits.pos(), 3, BitOrder::LsbFirst);
            vstd::arithmetic::power2::lemma2_to64();
        }
        let v = match bits.read_bits(3, BitOrder::LsbFirst) {
            Ok(v) => v,
            Err(e) => {
                return Err(e);
            },
        };
        let slot = code_length_index(i);
        code_lengths.set(slot, (slot as u8, v as u8));
        proof {
            assert forall|k: int| 0 <= k < 19 implies #[trigger] code_lengths@[k] == code_length_pairs(data, p, (i + 1) as nat)[k] by {
                if k != slot {
                    assert(code_length_slot(k as nat) != i);
                }
            }
            assert(code_lengths@ =~= code_length_pairs(data, p, (i + 1) as nat));
        }
        i = i + 1;
    }
    proof {
        bits.lemma_pos_bound();
    }
    Ok(code_lengths)
}

/// Reads the header of a dynamic block: the sizes of its alphabets, the code-length alphabet,
/// and the literal/length and distance alphabets.
fn read_dynamic_header(bits: &mut BitStream) -> (r: Result<(HuffmanAlphabet<u16>, HuffmanAlphabet<u16>), DecodeError>)
    requires
        old(bits).wf(),
    ensures
        final(bits).wf(),
        final(bits).data() == old(bits).data(),
        match dynamic_header(old(bits).data(), old(bits).pos()) {
            Err(e) => r == Err::<(HuffmanAlphabet<u16>, HuffmanAlphabet<u16>), DecodeError>(e),
            Ok((literals, distances, p)) => match r {
                Ok((l, d)) => l.wf() && d.wf() && l.pairs() == literals && d.pairs() == distances
                    && final(bits).pos() == p,
                Err(_) => false,
            },
        },
{
    let ghost data = bits.data();
    let ghost pos = bits.pos();
    proof {
        vstd::arithmetic::power2::lemma2_to64();
        crate::fiddling::lemma_bits_value_bound(data, pos, 5, BitOrder::LsbFirst);
        crate::fiddling::lemma_bits_value_bound(data, pos + 5, 5, BitOrder::LsbFirst);
        crate::fiddling::lemma_bits_value_bound(data, pos + 10, 4, BitOrder::LsbFirst);
    }
    let hlit = match bits.read_bits(5, BitOrder::LsbFirst) {
        Ok(v) => v as usize + 257,
        Err(e) => {
            return Err(e);
        },
    };
    let hdist = match bits.read_bits(5, BitOrder::LsbFirst) {
        Ok(v) => v as usize + 1,
        Err(e) => {
            return Err(e);
        },
    };
    let hclen = match bits.read_bits(4, BitOrder::LsbFirst) {
        Ok(v) => v as usize + 4,
        Err(e) => {
            return Err(e);
        },
    };
    if hlit > 286 {
        return Err(DecodeError::InvalidAlphabetSize);
    }
    let code_lengths = match read_code_length_pairs(bits, hclen) {
        Ok(v) => v,
        Err(e) => {
            return Err(e);
        },
    };
    if !is_prefix_code(code_lengths.as_slice()) {
        return Err(DecodeError::InvalidCodeLengths);
    }
    let cl_alphabet = HuffmanAlphabet::from_code_lengths(code_lengths.as_slice());
    let literal_alphabet = match extract_alphabet(bits, hlit, &cl_alphabet) {
        Ok(a) => a,
        Err(e) => {
            return Err(e);
        },
    };
    let distance_alphabet = match extract_alphabet(bits, hdist, &cl_alphabet) {
        Ok(a) => a,
        Err(e) => {
            return Err(e);
        },
    };
    Ok((literal_alphabet, distance_alphabet))
}

/// Reads the header of a dynamic block and decodes its symbols with the alphabets it gives.
pub fn copy_dynamic_huffman_block(bits: &mut BitStream, out_buf: &mut Vec<u8>) -> (r: Result<(), DecodeError>)
    requires
        old(bits).wf(),
    ensures
        final(bits).wf(),
        final(bits).data() == old(bits).data(),
        match dynamic_header(old(bits).data(), old(bits).pos()) {
            Err(e) => r == Err::<(), DecodeError>(e),
            Ok((literals, distances, p)) => match huffman_block(literals, distances, old(bits).data(), p, old(out_buf)@) {
                Ok((o, q)) => r is Ok && final(out_buf)@ == o && final(bits).pos() == q,
                Err(e) => r == Err::<(), DecodeError>(e),
            },
        },
{
    let (literal_alphabet, distance_alphabet) = match read_dynamic_header(bits) {
        Ok(a) => a,
        Err(e) => {
            return Err(e);
        },
    };
    copy_huffman_block(bits, out_buf, &literal_alphabet, &distance_alphabet)
}

/// Decoding the body of a block of type `t` that starts at bit `pos`: the output extended by
/// the block, and the position after it.
pub open spec fn block_at(t: CompressionType, data: Seq<u8>, pos: nat, out: Seq<u8>) -> Result<(Seq<u8>, nat), DecodeError> {
    match t {
        CompressionType::NoCompression => stored_block(data, pos, out),
        CompressionType::FixedHuffman => huffman_block(
            nonzero(fixed_literal_pairs()),
            nonzero(fixed_distance_pairs()),
            data,
            pos,
            out,
        ),
        CompressionType::DynamicHuffman => match dynamic_header(data, pos) {
            Err(e) => Err(e),
            Ok((literals, distances, p)) => huffman_block(literals, distances, data, p, out),
        },
        CompressionType::Reserved => Err(DecodeError::ReservedBlockType),
    }
}

/// Decoding the blocks from bit `pos` on, up to and including the final one, with `out` as the
/// output so far. (The guard on the position is never taken: every block moves forward.)
pub open spec fn inflate_from(data: Seq<u8>, pos: nat, out: Seq<u8>) -> Result<Seq<u8>, DecodeError>
    decreases 8 * data.len() - pos,
{
    match block_header_at(data, pos) {
        Err(e) => Err(e),
        Ok((h, p)) => match block_at(h.compression_type, data, p, out) {
            Err(e) => Err(e),
            Ok((o, q)) => if h.is_final {
                Ok(o)
            } else if q <= pos || q > 8 * data.len() {
                Err(DecodeError::InvalidSymbol)
            } else {
                inflate_from(data, q, o)
            },
        },
    }
}

proof fn lemma_huffman_block_advances(literals: Seq<(u16, u8)>, distances: Seq<(u16, u8)>, data: Seq<u8>, pos: nat, out: Seq<u8>)
    ensures
        match huffman_block(literals, distances, data, pos, out) {
            Ok((o, q)) => q > pos,
            Err(_) => true,
        },
    decreases 8 * data.len() - pos,
{
    match symbol_at(literals, distances, data, pos) {
        Err(e) => {},
        Ok((s, p)) => if p <= pos || p > 8 * data.len() {
        } else {
            match s {
                DeflateSymbol::EndOfData => {},
                DeflateSymbol::Literal(b) => {
                    lemma_huffman_block_advances(literals, distances, data, p, out.push(b));
                },
                DeflateSymbol::LengthAndDistance(l, d) => if d == 0 || d > out.len() {
                } else {
                    lemma_huffman_block_advances(literals, distances, data, p, out + back_reference(out, l as nat, d as nat));
                },
            }
        },
    }
}

proof fn lemma_code_lengths_advance(cl: Seq<(u8, u8)>, data: Seq<u8>, pos: nat, size: nat, acc: Seq<u8>)
    ensures
        match code_lengths_from(cl, data, pos, size, acc) {
            Ok((l, q)) => q >= pos,
            Err(_) => true,
        },
    decreases size - acc.len(),
{
    if acc.len() < size {
        match action_at(cl, data, pos) {
            Err(e) => {},
            Ok((a, p)) => match a {
                ExtractAction::CodeLength(l) => {
                    lemma_code_lengths_advance(cl, data, p, size, acc.push(l));
                },
                ExtractAction::CopyLastLength(t) => if acc.len() == 0 {
                } else if t == 0 || acc.len() + t > size {
                } else {
                    lemma_code_lengths_advance(cl, data, p, size, acc + repeated(acc.last(), t as nat));
                },
                ExtractAction::RepeatZero(t) => if t == 0 || acc.len() + t > size {
                } else {
                    lemma_code_lengths_advance(cl, data, p, size, acc + repeated(0, t as nat));
                },
            },
        }
    }
}

proof fn lemma_block_advances(t: CompressionType, data: Seq<u8>, pos: nat, out: Seq<u8>)
    ensures
        match block_at(t, data, pos, out) {
            Ok((o, q)) => q >= pos,
            Err(_) => true,
        },
{
    match t {
        CompressionType::FixedHuffman => {
            lemma_huffman_block_advances(nonzero(fixed_literal_pairs()), nonzero(fixed_distance_pairs()), data, pos, out);
        },
        CompressionType::DynamicHuffman => {
            if pos + 14 <= 8 * data.len() {
                let hlit = lsb_value(data, pos, 5) + 257;
                let hdist = lsb_value(data, pos + 5, 5) + 1;
                let hclen = lsb_value(data, pos + 10, 4) + 4;
                let p = pos + 14;
                let cl = nonzero(code_length_pairs(data, p, hclen));
                lemma_code_lengths_advance(cl, data, p + 3 * hclen, hlit, Seq::empty());
                match code_lengths_from(cl, data, p + 3 * hclen, hlit, Seq::empty()) {
                    Ok((ll, next_pos)) => {
                        lemma_code_lengths_advance(cl, data, next_pos, hdist, Seq::empty());
                    },
                    Err(_) => {},
                }
            }
            match dynamic_header(data, pos) {
                Ok((literals, distances, p)) => {
                    lemma_huffman_block_advances(literals, distances, data, p, out);
                },
                Err(_) => {},
            }
        },
        _ => {},
    }
}

/// Decompresses the DEFLATE stream `in_bytes`, appending what it decodes to `out_buf`.
pub fn decompress_blocks(in_bytes: &[u8], out_buf: &mut Vec<u8>) -> (r: Result<(), DecodeError>)
    ensures
        match inflate_from(in_bytes@, 0, old(out_buf)@) {
            Ok(o) => r is Ok && final(out_buf)@ == o,
            Err(e) => r == Err::<(), DecodeError>(e),
        },
{
    let mut bits = BitStream::new(in_bytes);
    // the fixed alphabets are built once per stream and shared by its fixed-Huffman blocks
    let fixed_literals = HuffmanAlphabet::static_alphabet();
    let fixed_distances = HuffmanAlphabet::static_distance_alphabet();
    loop
        invariant
            bits.wf(),
            bits.data() == in_bytes@,
            fixed_literals.wf(),
            fixed_distances.wf(),
            fixed_literals.pairs() == nonzero(fixed_literal_pairs()),
            fixed_distances.pairs() == nonzero(fixed_distance_pairs()),
            inflate_from(in_bytes@, bits.pos(), out_buf@) == inflate_from(in_bytes@, 0, old(out_buf)@),
        decreases 8 * in_bytes@.len() - bits.pos(),
    {
        let block_header = match read_block_header(&mut bits) {
            Ok(h) => h,
            Err(e) => {
                return Err(e);
            },
        };
        proof {
            lemma_block_advances(block_header.compression_type, in_bytes@, bits.pos(), out_buf@);
        }
        let copied = match block_header.compression_type {
            CompressionType::NoCompression => copy_uncompressed_block(&mut bits, out_buf),
            CompressionType::FixedHuffman => copy_huffman_block(&mut bits, out_buf, &fixed_literals, &fixed_distances),
            CompressionType::DynamicHuffman => copy_dynamic_huffman_block(&mut bits, out_buf),
            CompressionType::Reserved => Err(DecodeError::ReservedBlockType),
        };
        match copied {
            Ok(()) => {},
            Err(e) => {
                return Err(e);
            },
        }
        proof {
            bits.lemma_pos_bound();
        }
        if block_header.is_final {
            return Ok(());
        }
    }
}

} // verus!
