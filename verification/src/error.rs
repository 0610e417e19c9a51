//! What can go wrong with a recording.

use vstd::prelude::*;

verus! {

#[derive(Debug)]
pub enum Error {
    /// A file could not be read or written; what the system said.
    Io(String),
    Microphone(String),
    OtherSide(String),
    Encoder(String),
    Unsupported(&'static str),
}

impl Error {
    /// The error in words.
    pub open spec fn text(self) -> Seq<char> {
        match self {
            Error::Io(e) => e@,
            Error::Microphone(e) => "microphone: "@ + e@,
            Error::OtherSide(e) => "meeting audio: "@ + e@,
            Error::Encoder(e) => "encoder: "@ + e@,
            Error::Unsupported(e) => e@,
        }
    }

    /// The error in words.
    pub fn message(&self) -> (m: String)
        ensures
            m@ == self.text(),
    {
        match self {
            Error::Io(e) => e.clone(),
            Error::Microphone(e) => String::from_str("microphone: ").concat(e.as_str()),
            Error::OtherSide(e) => String::from_str("meeting audio: ").concat(e.as_str()),
            Error::Encoder(e) => String::from_str("encoder: ").concat(e.as_str()),
            Error::Unsupported(e) => String::from_str(e),
        }
    }
}

/// An error ends with what is known of it; before that it says what failed, the
/// microphone, the meeting's audio or the encoder.
pub proof fn law_errors_say_what_failed(e: Error)
    ensures
        e matches Error::Io(t) ==> e.text() == t@,
        e matches Error::Unsupported(t) ==> e.text() == t@,
        e matches Error::Microphone(t) ==> e.text() == "microphone: "@ + t@,
        e matches Error::OtherSide(t) ==> e.text() == "meeting audio: "@ + t@,
        e matches Error::Encoder(t) ==> e.text() == "encoder: "@ + t@,
{
}

} // verus!
