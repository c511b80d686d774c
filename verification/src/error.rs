//! The failures a client operation can report.

use vstd::prelude::*;

verus! {

/// Why an operation did not produce a result.
#[derive(Clone, Copy, Debug, PartialEq, Eq, Structural)]
pub enum Error {
    /// No reachable holder returned the content of an address.
    NotFound,
    /// Fetched bytes do not belong to the address they were fetched for, or
    /// cannot be read as the structure they stand for.
    Corruption,
    /// No usable quote was offered, or the payment was refused.
    Payment,
    /// Every attempt to reach a storage node failed.
    Network,
    /// A vault record was sealed under another key.
    Decryption,
    /// A malformed address string, key or size bound.
    InvalidInput,
}

impl Error {
    /// A short human-readable description.
    pub fn message(&self) -> (text: &'static str)
        ensures
            text@ == self.spec_message()@,
    {
        match self {
            Error::NotFound => "content not found",
            Error::Corruption => "content failed verification",
            Error::Payment => "payment could not be made",
            Error::Network => "network unreachable",
            Error::Decryption => "wrong key",
            Error::InvalidInput => "invalid input",
        }
    }

    /// The description each failure carries.
    pub open spec fn spec_message(&self) -> &'static str {
        match self {
            Error::NotFound => "content not found",
            Error::Corruption => "content failed verification",
            Error::Payment => "payment could not be made",
            Error::Network => "network unreachable",
            Error::Decryption => "wrong key",
            Error::InvalidInput => "invalid input",
        }
    }
}

} // verus!
