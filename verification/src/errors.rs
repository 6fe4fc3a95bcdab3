use vstd::prelude::*;

verus! {

/// Everything that can go wrong inside the resolver core: malformed wire
/// data found while decoding a response, an over-long domain handed to the
/// query encoder, or a record of the wrong type asked for its nameserver
/// name. Decoding never panics and never reads out of bounds; every failure
/// surfaces as one of these values.
#[derive(Clone, Copy, Debug, PartialEq, Eq, Structural)]
pub enum DnsError {
    /// A name's compression-pointer chain took more jumps than the cap allows.
    TooManyJumps,
    /// A name decode started at, or ran to, an offset outside the buffer.
    OffsetOutOfBounds,
    /// A compression pointer's second byte lies outside the buffer.
    InvalidPointer,
    /// A label's declared length runs past the end of the buffer.
    LabelOutOfBounds,
    /// A label whose bytes are not valid UTF-8.
    InvalidUtf8,
    /// The buffer ends before a fixed-size header or record field does.
    TruncatedMessage,
    /// A domain handed to the encoder has a label longer than 63 bytes.
    LabelTooLong,
    /// A domain handed to the encoder is longer than 255 bytes in all.
    DomainTooLong,
    /// The record asked for its nameserver name is not an NS record.
    NotNameServer,
}

impl DnsError {
    /// The human-readable reason this error carries.
    pub open spec fn spec_message(self) -> Seq<char> {
        match self {
            DnsError::TooManyJumps => "too many compression jumps"@,
            DnsError::OffsetOutOfBounds => "offset out of bounds"@,
            DnsError::InvalidPointer => "invalid compression pointer"@,
            DnsError::LabelOutOfBounds => "label length exceeds message bounds"@,
            DnsError::InvalidUtf8 => "invalid UTF-8 in a label"@,
            DnsError::TruncatedMessage => "message truncated"@,
            DnsError::LabelTooLong => "label longer than 63 bytes"@,
            DnsError::DomainTooLong => "domain longer than 255 bytes"@,
            DnsError::NotNameServer => "not a name server record"@,
        }
    }

    /// Render the reason as an owned string.
    pub fn message(&self) -> (r: String)
        ensures
            r@ == self.spec_message(),
    {
        match self {
            DnsError::TooManyJumps => "too many compression jumps".to_owned(),
            DnsError::OffsetOutOfBounds => "offset out of bounds".to_owned(),
            DnsError::InvalidPointer => "invalid compression pointer".to_owned(),
            DnsError::LabelOutOfBounds => "label length exceeds message bounds".to_owned(),
            DnsError::InvalidUtf8 => "invalid UTF-8 in a label".to_owned(),
            DnsError::TruncatedMessage => "message truncated".to_owned(),
            DnsError::LabelTooLong => "label longer than 63 bytes".to_owned(),
            DnsError::DomainTooLong => "domain longer than 255 bytes".to_owned(),
            DnsError::NotNameServer => "not a name server record".to_owned(),
        }
    }
}

} // verus!
