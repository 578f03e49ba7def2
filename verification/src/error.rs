use vstd::prelude::*;

verus! {

/// Every error the GIF parsing and decoding logic can surface.
///
/// All of them are fatal to the current decode: no frame is partially
/// emitted once an error is produced.
#[derive(Debug)]
#[allow(inconsistent_fields)]
pub enum GifParsingError {
    /// The byte source ran out of data in the middle of a read.
    IOError,
    /// No "GIF" magic string at the beginning of the data, or the three
    /// magic bytes are not ASCII.
    NoGIFHeader,
    /// The version in the GIF header is not one of "87a" or "89a".
    /// Carries the version string when it could be read as ASCII.
    UnsupportedVersion(Option<String>),
    /// A fixed-size extension header announced the wrong block size.
    UnexpectedLength { block_name: String, expected: u8, got: u8 },
    /// The parser expected a zero block terminator but found another byte.
    ExpectedBlockTerminator { block_name: Option<String> },
    /// A decoded color index lies outside the active color table.
    InvalidColor,
    /// A pixel write would fall outside the screen raster.
    TooMuchPixels,
    /// An image has neither a local nor a global color table.
    NoColorTable,
    /// An unknown extension label followed the extension introducer.
    UnrecognizedExtension(u8),
    /// An unknown top-level block tag, with the position just after it.
    UnrecognizedBlock { code: u8, position: usize },
    /// The compressed image data used an LZW code that no dictionary
    /// entry and no growth rule can account for, or an initial code size
    /// too large for the 12-bit code width limit.
    InvalidLzwCode,
}

} // verus!
