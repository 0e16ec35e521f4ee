//! The conditions under which an operation of the library gives up.
use vstd::prelude::*;

verus! {

/// Why an operation stopped. Each of these ends the whole operation; a run of
/// digits that matches no word is no error and is answered with question
/// marks.
#[derive(Debug, Clone, Copy, PartialEq, Eq, Structural)]
pub enum CipherError {
    /// A key of zero was given: it would rotate nothing.
    InvalidRotationAmount,
    /// An opening brace was read inside an escape that was still open.
    NestedEscape,
    /// The word list holds an entry without a letter.
    EmptyWordListEntry,
}

impl CipherError {
    /// The text of the message for each condition.
    pub open spec fn message_text(self) -> Seq<char> {
        match self {
            CipherError::InvalidRotationAmount => "the key must not be zero"@,
            CipherError::NestedEscape => "a '{' was found inside an escape that was still open"@,
            CipherError::EmptyWordListEntry => "the word list holds an empty line"@,
        }
    }

    /// A message for the user that says what went wrong.
    pub fn message(&self) -> (text: String)
        ensures
            text@ == self.message_text(),
    {
        match self {
            CipherError::InvalidRotationAmount => "the key must not be zero".to_owned(),
            CipherError::NestedEscape => {
                "a '{' was found inside an escape that was still open".to_owned()
            },
            CipherError::EmptyWordListEntry => "the word list holds an empty line".to_owned(),
        }
    }
}

} // verus!
