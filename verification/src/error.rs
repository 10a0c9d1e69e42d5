//! The reasons for which an encoded block is rejected.

use vstd::prelude::*;

verus! {

/// Why a byte sequence is not a well-formed encoded block.
#[derive(Clone, Copy, Debug, PartialEq, Eq, Structural)]
pub enum CorruptInput {
    /// The block ends in the middle of its length prefix or of a sequence.
    Truncated,
    /// A back-reference has offset zero.
    ZeroOffset,
    /// A back-reference points before the first byte of the output.
    OffsetOutOfRange,
    /// The sequences produce more or fewer bytes than the prefix declares.
    LengthMismatch,
}

impl CorruptInput {
    /// The words that [`message`](CorruptInput::message) returns.
    pub open spec fn text(self) -> Seq<char> {
        match self {
            CorruptInput::Truncated => "corrupt input: the block ends before it is complete"@,
            CorruptInput::ZeroOffset => "corrupt input: a back-reference has offset zero"@,
            CorruptInput::OffsetOutOfRange =>
                "corrupt input: a back-reference points before the start of the output"@,
            CorruptInput::LengthMismatch =>
                "corrupt input: the decoded length differs from the declared length"@,
        }
    }

    /// The reason in words, for a host that reports errors as strings.
    pub fn message(&self) -> (text: String)
        ensures
            text@ == self.text(),
    {
        match self {
            CorruptInput::Truncated => "corrupt input: the block ends before it is complete".to_owned(),
            CorruptInput::ZeroOffset => "corrupt input: a back-reference has offset zero".to_owned(),
            CorruptInput::OffsetOutOfRange =>
                "corrupt input: a back-reference points before the start of the output".to_owned(),
            CorruptInput::LengthMismatch =>
                "corrupt input: the decoded length differs from the declared length".to_owned(),
        }
    }
}

} // verus!
