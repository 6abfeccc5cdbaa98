//! The ways in which an operation of the node fails.

use vstd::prelude::*;
use vstd::string::*;

verus! {

/// Why an operation of the node did not do its work.
#[derive(Clone, Copy, Debug, PartialEq, Eq, Structural)]
pub enum Error {
    /// An identifier is not 40 lowercase hex characters.
    InvalidId,
    /// The identifier is the node's own.
    SameId,
    /// The bucket of a new peer holds 20 peers already.
    BucketFull,
    /// The bytes are no packet.
    DecodeError,
    /// The packet does not fit a datagram of 1024 bytes.
    DatagramTooLarge,
    /// No request with this transaction identifier is waiting.
    UnknownTransaction,
    /// The response came from another endpoint than the request went to.
    UnexpectedSource,
    /// The persisted peers do not form a routing table for the node.
    InvalidState,
}

impl Error {
    /// The message of this error, as a view.
    pub open spec fn text(self) -> Seq<char> {
        match self {
            Error::InvalidId => "Invalid node ID"@,
            Error::SameId => "The node ID is the local one"@,
            Error::BucketFull => "Bucket is full"@,
            Error::DecodeError => "Failed to deserialize packet"@,
            Error::DatagramTooLarge => "Packet is larger than a datagram"@,
            Error::UnknownTransaction => "Unknown transaction ID"@,
            Error::UnexpectedSource => "Unexpected address"@,
            Error::InvalidState => "The persisted peers do not form a routing table"@,
        }
    }

    /// The message of this error.
    pub fn message(&self) -> (m: String)
        ensures
            m@ == self.text(),
    {
        match self {
            Error::InvalidId => String::from_str("Invalid node ID"),
            Error::SameId => String::from_str("The node ID is the local one"),
            Error::BucketFull => String::from_str("Bucket is full"),
            Error::DecodeError => String::from_str("Failed to deserialize packet"),
            Error::DatagramTooLarge => String::from_str("Packet is larger than a datagram"),
            Error::UnknownTransaction => String::from_str("Unknown transaction ID"),
            Error::UnexpectedSource => String::from_str("Unexpected address"),
            Error::InvalidState => String::from_str(
                "The persisted peers do not form a routing table",
            ),
        }
    }
}

} // verus!
