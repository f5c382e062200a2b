//! The one error type of the decoders.
use vstd::prelude::*;

verus! {

/// Why a decode failed. Every failure aborts the decode that met it.
#[derive(PartialEq, Eq, Debug, Clone, Copy, Structural)]
pub enum DecodeError {
    /// The input ended before a read that the format requires.
    UnexpectedEof,
    /// A DEFLATE block header names the reserved block type.
    ReservedBlockType,
    /// The LEN and NLEN fields of a stored block share a set bit.
    LenNlenMismatch,
    /// A set of code lengths does not form a prefix code.
    InvalidCodeLengths,
    /// The next bits match no code of the Huffman alphabet in use.
    NoMatchingCode,
    /// A decoded symbol lies outside the range that its alphabet allows.
    InvalidSymbol,
    /// A code-length repeat came before any code length.
    RepeatWithoutPrevious,
    /// A dynamic block declares more than 286 literal/length codes.
    InvalidAlphabetSize,
    /// The code lengths of a dynamic block run past the size of their alphabet.
    TooManyCodeLengths,
    /// A back-reference points before the start of the output.
    DistanceTooFar,
    /// The zlib header fails its check value.
    BadHeaderCheck,
    /// The zlib header names a compression method other than deflate.
    UnsupportedCompressionMethod,
    /// The zlib header asks for a preset dictionary.
    PresetDictionary,
    /// The input does not start with the PNG signature.
    BadSignature,
    /// The first chunk of a PNG is not IHDR.
    FirstChunkNotIhdr,
    /// The IHDR chunk does not hold exactly 13 bytes.
    BadIhdrLength,
    /// The image uses a palette.
    PaletteUnsupported,
    /// The color type or the bit depth is not one that PNG defines, or the color type does not
    /// allow the bit depth.
    InvalidBitDepthForColorType,
    /// The IHDR compression method is not 0.
    UnknownCompressionMethod,
    /// The IHDR filter method is not 0.
    UnknownFilterMethod,
    /// The IHDR interlace method is neither 0 nor 1.
    UnknownInterlaceMethod,
    /// The image is interlaced.
    InterlaceUnsupported,
    /// The CRC-32 of a chunk differs from the one that the chunk carries.
    CrcMismatch,
    /// A second IHDR chunk was met.
    SecondIhdr,
    /// A scanline starts with a filter type other than 0 to 4.
    InvalidFilterType,
    /// The decompressed data is too short for the image that IHDR describes.
    ImageDataTooShort,
    /// The size of the image does not fit in memory.
    ImageTooLarge,
}

} // verus!
