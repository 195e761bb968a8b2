use vstd::prelude::*;

verus! {

/// The ways an encode or decode operation can fail.
#[derive(Debug, Clone, Copy, PartialEq, Eq, Structural)]
pub enum SerError {
    /// A read would cross the end of the input, or a write would grow the
    /// output past what the machine can address.
    BufferTooSmall,
    /// The bytes are not a well-formed encoding: a varint that runs on too
    /// long, text that is not UTF-8, or an unknown float marker.
    InvalidData,
    /// The length prefix of a fixed-size array disagrees with the size the
    /// caller's schema expects.
    InvalidLength,
    /// The requested operation is not available in this build.
    UnsupportedType,
}

/// What a decoder makes of a byte sequence: the decoded value together with
/// the number of bytes it consumed, or the error it reports.
pub type Parsed<T> = Result<(T, nat), SerError>;

} // verus!
