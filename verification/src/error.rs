use vstd::prelude::*;

verus! {

/// The `std::io::Error` that an outside call can hand back; carried through
/// unchanged inside [`Error::Io`].
#[verifier::external_type_specification]
#[verifier::external_body]
pub struct ExIoError(std::io::Error);

/// Everything that can go wrong while reading or writing session data.
#[derive(Debug)]
pub enum Error {
    /// Fewer than `HEADER_LEN` bytes were available for the file header.
    TruncatedHeader,
    /// The first four header bytes are not `FBK1`.
    BadMagic,
    /// A frame payload is shorter than its declared fields, or holds text
    /// that is not UTF-8.
    MalformedFrame,
    /// A frame type this reader does not know.
    UnknownFrameType(u8),
    /// Snapshot data that the decompressor rejected.
    CorruptSnapshot,
    /// A reflective hash walk went deeper than its guard allows: a cyclic or
    /// runaway object graph.
    ReflectionDepthExceeded { path: String, max_depth: usize },
    /// A reflective hash walk was asked to start from something that is not
    /// a struct.
    ReflectionRootNotStruct,
    /// An I/O error reported by an outside routine.
    Io(std::io::Error),
}

} // verus!
