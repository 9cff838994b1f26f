use vstd::prelude::*;

verus! {

/// What an operation of the index can fail with.
#[derive(Clone, Copy, Debug, PartialEq, Eq, Structural)]
pub enum Error {
    /// The stored checksum does not belong to the bytes of the append log.
    MalformedPending,
    /// A record store ran out of records before the range asked for was
    /// walked through.
    Exhausted,
    /// A record position lies beyond what a store can address.
    OutOfSpace,
    /// The append log ends in the middle of an entry.
    TruncatedEntry,
}

impl Error {
    /// The description that belongs to each failure.
    pub open spec fn description(self) -> Seq<char> {
        match self {
            Error::MalformedPending => "Malformed pending file"@,
            Error::Exhausted => "Record store exhausted"@,
            Error::OutOfSpace => "Record position out of space"@,
            Error::TruncatedEntry => "Truncated pending entry"@,
        }
    }

    /// A short description of the failure.
    pub fn message(&self) -> (text: &'static str)
        ensures
            text@ == self.description(),
    {
        match self {
            Error::MalformedPending => "Malformed pending file",
            Error::Exhausted => "Record store exhausted",
            Error::OutOfSpace => "Record position out of space",
            Error::TruncatedEntry => "Truncated pending entry",
        }
    }
}

} // verus!
