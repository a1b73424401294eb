//! Why a stored record is left out of an idle report.

use vstd::prelude::*;

verus! {

/// The reasons for which a stored record yields no line of the report.
#[derive(Debug, Clone, Copy, PartialEq, Eq, Structural)]
pub enum ReportError {
    /// A stored value is not an eight-byte timestamp.
    MalformedTimestamp,
    /// A stored key is not an eight-byte author identifier.
    MalformedAuthorId,
    /// A stored display name is not UTF-8.
    MalformedName,
    /// A stored timestamp lies outside the range of moments that the chat
    /// platform's timestamps can express.
    TimestampOutOfRange,
    /// A stored timestamp is later than the time of the report.
    TimestampInFuture,
}

impl ReportError {
    /// The text that describes each error.
    pub open spec fn description_text(self) -> Seq<char> {
        match self {
            ReportError::MalformedTimestamp => "stored timestamp is not eight bytes long"@,
            ReportError::MalformedAuthorId => "stored author identifier is not eight bytes long"@,
            ReportError::MalformedName => "stored display name is not valid UTF-8"@,
            ReportError::TimestampOutOfRange => "stored timestamp is out of range"@,
            ReportError::TimestampInFuture => "stored timestamp is later than the current time"@,
        }
    }

    /// A description of the error for logs and replies.
    pub fn description(&self) -> (text: String)
        ensures
            text@ == self.description_text(),
    {
        match self {
            ReportError::MalformedTimestamp => String::from_str(
                "stored timestamp is not eight bytes long",
            ),
            ReportError::MalformedAuthorId => String::from_str(
                "stored author identifier is not eight bytes long",
            ),
            ReportError::MalformedName => String::from_str(
                "stored display name is not valid UTF-8",
            ),
            ReportError::TimestampOutOfRange => String::from_str(
                "stored timestamp is out of range",
            ),
            ReportError::TimestampInFuture => String::from_str(
                "stored timestamp is later than the current time",
            ),
        }
    }
}

} // verus!
