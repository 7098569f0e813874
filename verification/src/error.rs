//! What can go wrong, and the words for it.

use vstd::prelude::*;
use vstd::string::*;

verus! {

/// The ways a run can fail.
#[derive(Debug)]
pub enum Error {
    /// The sort key given is neither `name` nor `size`; the key is kept.
    InvalidSort(String),
    /// An entry was found at a path that does not lie below the scan root.
    OutsideRoot,
    /// The report could not be written out. Making the report never fails;
    /// this is for whoever hands it to the outside.
    OutputWrite,
}

impl Error {
    /// The text that tells a user what failed.
    pub open spec fn message_text(self) -> Seq<char> {
        match self {
            Error::InvalidSort(key) => "invalid sort parameter: "@ + key@,
            Error::OutsideRoot => "an entry lies outside the directory that is scanned"@,
            Error::OutputWrite => "the report could not be written"@,
        }
    }

    /// The text that tells a user what failed.
    pub fn message(&self) -> (text: String)
        ensures
            text@ == self.message_text(),
    {
        match self {
            Error::InvalidSort(key) => {
                let mut text = String::from_str("invalid sort parameter: ");
                text.append(key.as_str());
                text
            },
            Error::OutsideRoot => String::from_str(
                "an entry lies outside the directory that is scanned",
            ),
            Error::OutputWrite => String::from_str("the report could not be written"),
        }
    }
}

} // verus!
