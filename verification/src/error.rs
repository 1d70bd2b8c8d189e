//! The ways in which encoding can fail.
use vstd::prelude::*;

verus! {

/// Why an encoding step refused its input.
#[derive(Debug, Clone, Copy, PartialEq, Eq, Structural)]
pub enum EncodeError {
    /// A version number outside 1 to 40.
    InvalidVersion,
    /// A character that the chosen mode cannot represent.
    InvalidCharacter,
    /// Text that the chosen character set cannot represent.
    UnencodableText,
    /// A character set name that is not known.
    UnsupportedCharacterSet,
    /// A count of letters that does not fit in the length field.
    LengthTooLarge,
    /// Data that does not fit in the symbol.
    DataTooBig,
    /// A mode that carries no data of its own.
    InvalidMode,
    /// A block number not below the number of blocks.
    InvalidBlockId,
    /// Block sizes that do not add up.
    BlockSizeMismatch,
    /// A mask pattern outside 0 to 7.
    InvalidMaskPattern,
    /// A hint value that is not a number.
    InvalidHint,
}

} // verus!
