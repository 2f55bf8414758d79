use vstd::prelude::*;

verus! {

/// Why a metainfo file or a piece catalog could not be produced.
#[derive(Debug, Clone, Copy, PartialEq, Eq, Structural)]
pub enum TorrentError {
    /// The bytes are not well-formed bencode, or a field has the wrong type.
    MalformedEncoding,
    /// A required key is absent.
    MissingField,
    /// The info dictionary has both `length` and `files`, or neither.
    LayoutConflict,
    /// The pieces byte string is not a whole number of 20-byte hashes.
    InvalidLength,
    /// The number of piece hashes disagrees with the number of pieces.
    IndexMismatch,
}

} // verus!
