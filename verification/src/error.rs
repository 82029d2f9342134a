use vstd::prelude::*;

verus! {

/// Everything that can go wrong while encoding or decoding a DNS message, or
/// while dealing with an upstream resolver.
#[derive(Clone, Copy, Debug, PartialEq, Eq, Structural)]
pub enum DnsError {
    /// Fewer than the 12 bytes of a fixed header were available.
    TruncatedHeader,
    /// A fixed-width field of a record ran past the end of the message.
    TruncatedMessage,
    /// A label or resource-data blob claimed more bytes than remain.
    TruncatedRecord,
    /// A compression pointer's offset lies outside the message.
    MalformedPointer,
    /// Following compression pointers exceeded the hop limit.
    PointerLoop,
    /// A domain name cannot be put on the wire: a segment longer than the
    /// one-byte length field allows, or a character that does not fit a byte.
    EncodingError,
    /// Sending to or receiving from the upstream resolver failed.
    /// Raised only by the embedding program; the codec itself does no I/O.
    UpstreamIoError,
    /// An upstream reply did not parse as a DNS message.
    UpstreamDecodeError,
}

} // verus!
