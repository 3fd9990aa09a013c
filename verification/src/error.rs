//! Error values shared by the codecs, the ROM model and the placement engine.

use vstd::prelude::*;

verus! {

/// A defect in the byte layout of a ROM image or of one of its tables.
#[derive(Clone, Copy, Debug, PartialEq, Eq, Structural)]
pub enum FormatError {
    /// A three byte pointer whose raw value lies below the mapped bank window.
    InvalidPointer,
    /// Fewer bytes than a pointer table of the requested size needs.
    ShortRead,
    /// No object table rule matches the bytes at hand.
    UnknownTag,
    /// Bytes were left over after the last object table entry.
    TrailingBytes,
    /// A table reaches past the end of the image, or has no terminator.
    TruncatedRom,
    /// A chest table with fewer than eight records.
    ShortTable,
    /// A room with more chests than a one byte index can number.
    TooManyChests,
}

/// A failure of the ROM model, of the placement engine or of the policy
/// that guards them.
#[derive(Clone, Copy, Debug, PartialEq, Eq, Structural)]
pub enum NeutopiaError {
    /// A defect in one of the top-level tables of the image.
    Format(FormatError),
    /// A defect met while reading the given room of the given area.
    FormatInRoom { area: u8, room: u8, cause: FormatError },
    /// A chest reference that names no chest of the model.
    IncoherentChest,
    /// Two checks of a catalog share a location.
    DuplicateLocation,
    /// A catalog that does not hold one check for each item to place.
    UnbalancedCatalog,
    /// An item locked to one area was sent to another.
    AreaLockViolation,
    /// No check is pending at the location.
    UnknownLocation,
    /// The item is not pending.
    UnknownItem,
    /// More than one pending item has the requested id.
    AmbiguousItem,
    /// No check is open for the next item.
    NoOpenCheck,
    /// The image has neither the bare nor the headered cartridge size.
    InvalidRomSize,
    /// The digest of the image is not a known one.
    Unrecognized,
    /// The image is a known one of another region.
    UnsupportedRegion,
    /// A patch that does not parse.
    InvalidPatch,
    /// A patch record that reaches past the end of the image.
    PatchOutOfBounds,
    /// Relocated data that reaches past what a pointer can address.
    ImageTooLarge,
    /// A seed that is not a base 36 number of 64 bits.
    InvalidSeed,
    /// A word that names no kind of placement.
    InvalidRandoType,
    /// A password that is not twenty-four symbols long.
    InvalidPasswordLength,
    /// A character that is no password symbol.
    InvalidCharacter,
    /// A password section whose check sum is wrong.
    ChecksumMismatch,
    /// Two images of different length that were to be compared.
    LengthMismatch,
}

} // verus!
