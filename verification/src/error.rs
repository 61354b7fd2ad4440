use vstd::prelude::*;

verus! {

/// The data-integrity failures an encode or decode call can end with.
/// Each aborts the whole call; none is recoverable.
#[derive(Debug, Clone, Copy, PartialEq, Eq, Structural)]
pub enum LizardError {
    /// A header's declared length disagrees with the bytes at hand, or the
    /// serialized tree cannot be rebuilt.
    MalformedHeader,
    /// The input ended in the middle of a record: mid-header, mid-copy-record
    /// or mid-literal-chunk.
    TruncatedStream,
    /// A copy record asks for bytes beyond what the decode window holds.
    RangeOutOfBounds,
    /// A record marker byte whose top two bits are neither `10` nor `11`.
    UnknownRecordMarker,
    /// A literal byte has no entry in the code map: the encoder and its model
    /// disagree.
    MissingCode,
    /// A Huffman tree was requested for an empty frequency table.
    EmptyModel,
}

impl LizardError {
    /// A short stable name for the failure, for reporting outside the library.
    pub fn describe(&self) -> (r: &'static str)
        ensures
            r@ == self.spec_describe(),
    {
        match self {
            LizardError::MalformedHeader => "malformed header",
            LizardError::TruncatedStream => "truncated stream",
            LizardError::RangeOutOfBounds => "copy range out of bounds",
            LizardError::UnknownRecordMarker => "unknown record marker",
            LizardError::MissingCode => "byte without a code",
            LizardError::EmptyModel => "empty frequency model",
        }
    }

    pub open spec fn spec_describe(&self) -> Seq<char> {
        match self {
            LizardError::MalformedHeader => "malformed header"@,
            LizardError::TruncatedStream => "truncated stream"@,
            LizardError::RangeOutOfBounds => "copy range out of bounds"@,
            LizardError::UnknownRecordMarker => "unknown record marker"@,
            LizardError::MissingCode => "byte without a code"@,
            LizardError::EmptyModel => "empty frequency model"@,
        }
    }
}

} // verus!
