use vstd::prelude::*;

verus! {

/// Failure while reading the wire form of a message or a name.
#[derive(Debug, Clone, Copy, PartialEq, Eq, Structural)]
pub enum ParseError {
    /// Fewer than 12 bytes where a header was expected.
    InvalidHeader,
    /// A question section entry ran past the end of the buffer.
    InvalidQuestion,
    /// A resource record ran past the end of the buffer.
    InvalidResourcRecord,
    /// A compression pointer left the message or formed a cycle.
    BadName,
}

impl ParseError {
    /// A short description of the failure, for diagnostics.
    pub fn message(&self) -> (r: &'static str) {
        match self {
            ParseError::InvalidHeader => "Header is not large enough",
            ParseError::InvalidQuestion => "Question is not large enough",
            ParseError::InvalidResourcRecord => "ResourceRecord is not large enough",
            ParseError::BadName => "Invalid name compression",
        }
    }
}

/// A non-zero RCODE reported by the server, for values 1 through 5.
#[derive(Debug, Clone, Copy, PartialEq, Eq, Structural)]
pub enum ResponseCodeError {
    FormatError,
    ServerFailure,
    NameError,
    NotImplemented,
    Refused,
}

impl ResponseCodeError {
    /// A short description of the failure, for diagnostics.
    pub fn message(&self) -> (r: &'static str) {
        match self {
            ResponseCodeError::FormatError => "The name server was unable to interpret the query",
            ResponseCodeError::ServerFailure => "The name server was unable to process this query due to a problem with the name server",
            ResponseCodeError::NameError => "The domain name referenced in the query does not exist",
            ResponseCodeError::NotImplemented => "The name server does not support the requested kind of query",
            ResponseCodeError::Refused => "The name server refuses to perform the specified operation for policy reasons",
        }
    }
}

/// Every failure kind that resolution can surface to its caller.
#[derive(Debug, Clone, Copy, PartialEq, Eq, Structural)]
pub enum DnsError {
    /// The response bytes could not be parsed.
    ParsingError(ParseError),
    /// The server answered with RCODE 1 through 5.
    ResponseCodeError(ResponseCodeError),
    /// Socket bind, send, or receive failed.
    Io,
    /// The response was structurally valid but semantically empty or
    /// classified as an error.
    InvalidFormat,
    /// The response header id did not match the query id.
    InvalidResponseID,
    /// The iteration bound was exhausted, or every alias branch failed.
    MaxDepth,
    /// Every candidate server failed to produce a valid response.
    NoAvailableServers,
    /// A name-only delegation whose every nameserver lookup failed.
    InvalidDelegation,
    /// A label longer than 63 bytes was handed to the name encoder.
    NameTooLong,
}

impl DnsError {
    /// A short description of the failure, for diagnostics.
    pub fn message(&self) -> (r: &'static str) {
        match self {
            DnsError::ParsingError(e) => e.message(),
            DnsError::ResponseCodeError(e) => e.message(),
            DnsError::Io => "Network IO failed",
            DnsError::InvalidFormat => "Invalid format of data",
            DnsError::InvalidResponseID => "Invalid response ID",
            DnsError::MaxDepth => "Max depth reached",
            DnsError::NoAvailableServers => "No available servers",
            DnsError::InvalidDelegation => "Error in delegation",
            DnsError::NameTooLong => "Label too long",
        }
    }
}

} // verus!
