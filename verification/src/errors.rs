//! The failures that decoding and the replication protocol can report.
use vstd::prelude::*;

verus! {

/// Why an operation of this library failed.
#[derive(Clone, Copy, Debug, PartialEq, Eq, Structural)]
pub enum RdbError {
    /// The bytes ran out before the value was complete.
    Io,
    /// A read into an empty destination was asked for.
    NilRead,
    /// The origin of a seek was none of start, cursor, end.
    InvalidWhence,
    /// A seek would place the cursor before the first byte.
    NegativePosition,
    /// A cursor position would not fit in 31 bits.
    PositionOutOfRange,
    /// Compressed data referred to bytes that are not there.
    DataNotExist,
    /// A zipmap item announced its length with the reserved byte 254.
    InvalidZipmapItemLength,
    /// A ziplist entry began with a header byte of no known encoding.
    UnknownZiplistHeader,
    /// A specially encoded string named an encoding that does not exist.
    InvalidEncodedString,
    /// The first byte of a length matched none of the length encodings.
    UnknownEncodingLength,
    /// A plain length was expected and a special encoding was found.
    EncodedLength,
    /// A 64-bit length exceeded what an entry can count.
    LengthOutOfRange,
    /// A value type tag that the snapshot format does not define.
    UnknownObjectType,
    /// An intset announced an element width other than 2, 4 or 8.
    UnknownIntsetEncoding,
    /// The snapshot did not begin with the magic string and a decimal version.
    BadHeader,
    /// The trailing checksum differs from the one computed over the stream.
    Checksum,
    /// The end-of-snapshot opcode was reached.
    RdbEnd,
    /// A reply of the source had an unexpected shape.
    Protocol,
    /// The source refused to continue the stream from the requested offset.
    ResyncRejected,
}

/// The classes of failure, by how a session has to react to them.
#[derive(Clone, Copy, Debug, PartialEq, Eq, Structural)]
pub enum ErrorClass {
    /// The source connection gave out.
    Connection,
    /// The snapshot bytes are malformed.
    Decode,
    /// The snapshot is corrupt as a whole.
    Checksum,
    /// The source answered outside the protocol.
    Protocol,
    /// The source will not resume the stream.
    Resync,
    /// Not a failure: the snapshot is complete.
    End,
}

impl RdbError {
    /// The class of this error.
    pub open spec fn spec_class(self) -> ErrorClass {
        match self {
            RdbError::Io => ErrorClass::Connection,
            RdbError::Checksum => ErrorClass::Checksum,
            RdbError::RdbEnd => ErrorClass::End,
            RdbError::Protocol => ErrorClass::Protocol,
            RdbError::ResyncRejected => ErrorClass::Resync,
            _ => ErrorClass::Decode,
        }
    }

    /// The class of this error.
    pub fn class(&self) -> (c: ErrorClass)
        ensures
            c == self.spec_class(),
    {
        match self {
            RdbError::Io => ErrorClass::Connection,
            RdbError::Checksum => ErrorClass::Checksum,
            RdbError::RdbEnd => ErrorClass::End,
            RdbError::Protocol => ErrorClass::Protocol,
            RdbError::ResyncRejected => ErrorClass::Resync,
            _ => ErrorClass::Decode,
        }
    }

    /// Whether a session can go on after this error: only the end marker is
    /// not fatal to the snapshot phase.
    pub fn is_end(&self) -> (b: bool)
        ensures
            b == (*self == RdbError::RdbEnd),
    {
        match self {
            RdbError::RdbEnd => true,
            _ => false,
        }
    }
}

} // verus!
