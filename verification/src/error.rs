//! Errors reported by the ROM, archive and graphics parsers.
use vstd::prelude::*;

verus! {

/// Why a ROM, archive or graphics file could not be read.
#[derive(Copy, Clone, PartialEq, Eq, Structural, Debug)]
pub enum Error {
    /// The file is smaller than a DS cartridge header.
    TooSmall,
    /// The header's File Allocation Table lies outside the image or is not a whole number of entries.
    InvalidFat,
    /// A file id beyond the File Allocation Table.
    FileIdOutOfRange,
    /// A File Allocation Table entry points outside the ROM.
    EntryOutsideRom,
    /// No file in the name table has the requested path.
    NoSuchFile,
    /// The data does not start with the expected stamp.
    BadMagic,
    /// A field lies past the end of the data.
    Truncated,
    /// A block declares a size below its header or past the end of the data.
    BadBlockSize,
    /// An archive has no GMIF (file image) block.
    MissingImage,
    /// An archive sub-file index beyond the allocation table.
    IndexOutOfRange,
    /// An archive allocation entry points outside the image block.
    EntryOutsideImage,
    /// A graphics file lacks the block its format requires.
    MissingBlock,
}

} // verus!
