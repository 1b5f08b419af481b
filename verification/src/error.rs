//! Error taxonomy for decoding, encoding and the forwarding path.

use vstd::prelude::*;

verus! {

/// Everything that can go wrong while decoding or encoding a DNS message,
/// or while relaying a question to an upstream resolver.
#[derive(Debug, Clone, Copy, PartialEq, Eq, Structural)]
pub enum DnsError {
    /// Fewer than 12 bytes were available for the fixed header.
    MalformedHeader,
    /// A domain-name label longer than 63 bytes cannot be length-prefixed.
    LabelTooLong,
    /// A name ran past the end of the buffer, or a length byte had the
    /// reserved top-bit patterns `01`/`10`, or a compression pointer was
    /// truncated or aimed outside the buffer.
    InvalidNamePointer,
    /// A compression-pointer chain took more hops than the buffer has
    /// bytes, so it revisited an offset and could never terminate.
    NameDecodeLoop,
    /// Fewer than 4 bytes remained after a question's name.
    TruncatedQuestion,
    /// A resource record's fixed fields or declared RDATA ran past the
    /// end of the buffer.
    TruncatedRecord,
    /// An upstream reply carried no answer record.
    UpstreamNoAnswer,
    /// The upstream resolver could not be reached at all.
    UpstreamUnreachable,
}

} // verus!
