use vstd::prelude::*;

use crate::avatar::AvtError;
use crate::sauce::SauceError;

verus! {

/// Why a file could not be read.
#[derive(Clone, Copy, Debug, PartialEq, Eq, Structural)]
pub enum LoadError {
    /// The SAUCE record is broken.
    Sauce(SauceError),
    /// The Avatar stream holds a command the reader does not support.
    Avatar(AvtError),
    /// BIN data whose last cell has no attribute byte.
    BinOddLength,
    /// An XBin file shorter than its header.
    XbTooShort,
    /// An XBin file that does not start with `XBIN`.
    XbInvalidId,
    /// Uncompressed XBin data whose last cell has no attribute byte.
    XbOddLength,
    /// The palette or font an XBin header announces is cut off.
    XbTruncated,
    /// An ArtWorx file too short for its palette and font.
    AdfTooShort,
    /// An iCE Draw file too short for its header, font and palette.
    IdfTooShort,
    /// An iCE Draw file of another version than 1.3 or 1.4.
    IdfUnsupportedVersion,
    /// An iCE Draw file whose right edge lies left of its left edge.
    IdfInvalidBounds,
    /// A TundraDraw file shorter than its header.
    TndTooShort,
    /// A TundraDraw file without the `TUNDRA24` id.
    TndInvalidId,
    /// A TundraDraw jump outside the picture.
    TndPositionOutOfBounds,
    /// A TundraDraw command cut off by the end of the data.
    TndTruncated,
    /// A Mystic Draw file shorter than its header.
    MdfTooShort,
    /// A Mystic Draw file without the `MDf` id.
    MdfInvalidHeader,
    /// A Mystic Draw file whose checksum does not match.
    MdfCrcMismatch,
    /// A Mystic Draw file with an unknown buffer type.
    MdfInvalidBufferType,
    /// A Mystic Draw block of an unknown type.
    MdfUnsupportedBlock(u8),
    /// A Mystic Draw block cut off by the end of the data.
    MdfTruncated,
    /// A Mystic Draw layer whose cells run past the largest position.
    MdfLayerTooLarge,
}

} // verus!
