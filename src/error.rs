use vstd::prelude::*;

verus! {

/// Everything that can go wrong when encoding, decoding, storing or
/// looking up an object.
#[derive(Debug, Clone, Copy, PartialEq, Eq, Structural)]
pub enum ObjectError {
    /// An object id prefix shorter than three hex characters.
    InvalidReference,
    /// No stored object matches the id prefix.
    ObjectNotFound,
    /// Several stored objects match the id prefix; carries their number.
    AmbiguousReference(usize),
    /// The `"<kind> <size>\0"` header could not be decoded.
    MalformedHeader,
    /// A tree entry is truncated, is not text, or cannot be encoded.
    MalformedTreeEntry,
    /// The number of payload bytes differs from the declared size.
    SizeMismatch { expected: u64, actual: u64 },
    /// A kind token other than `blob`, `tree` or `commit`.
    UnknownObjectKind,
    /// A tree entry mode that is not an octal number.
    UnknownMode,
    /// The compressed stream could not be inflated.
    CorruptStream,
    /// A tree was asked for, another kind was found.
    NotATree,
    /// Printing an object was asked for without pretty-printing.
    Unsupported,
    /// The working directory holds no file, so there is no tree to write.
    EmptyTree,
}

} // verus!
