use vstd::prelude::*;

verus! {

/// Closed set of failures of the framing protocol. Every failure of `save_frame`
/// or `load_frame` is one of these; none is swallowed or downgraded.
#[derive(Debug, Clone, PartialEq, Eq)]
pub enum FrameError {
    /// The destination could not be opened for writing.
    CannotOpenForWrite,
    /// The source could not be opened for reading.
    CannotOpen,
    /// The body codec rejected the in-memory value; carries its diagnostic.
    EncodeError { diagnostic: String },
    /// The blob holds no newline, so no header/body boundary exists.
    MalformedBlob,
    /// The header names a type other than the one being loaded.
    HeaderMismatch { expected: String, found: String },
    /// The body codec rejected the textual body; carries its diagnostic.
    DecodeError { diagnostic: String },
}

} // verus!
