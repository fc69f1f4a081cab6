use vstd::prelude::*;
use vstd::string::StringExecFns;

verus! {

#[verifier::external_type_specification]
#[verifier::external_body]
pub struct ExIoError(std::io::Error);

/// Errors raised while reading frames or building commands.
#[derive(Debug)]
pub enum Error {
    /// The buffer does not yet hold a whole frame: read more bytes.
    IncompleteRequestData,
    /// The bytes do not form a frame.
    InvalidRequestData,
    /// The peer closed the stream in the middle of a frame.
    ConnectionClosed,
    /// A well-formed frame that is not a valid command.
    Msg(String),
    /// The underlying stream failed.
    Io(std::io::Error),
}

pub type Result<T> = std::result::Result<T, Error>;

/// Relies on `Display for std::io::Error`: the text of the error. It depends on
/// the platform, so nothing is claimed of it.
#[verifier::external_body]
fn io_error_text(e: &std::io::Error) -> (r: String) {
    format!("{e}")
}

impl Error {
    /// A line describing the error.
    pub fn message(&self) -> (r: String)
        ensures
            match self {
                Error::IncompleteRequestData => r@ == "Parse Error: Incomplete request data"@,
                Error::InvalidRequestData => r@ == "Parse Error: Invalid request data"@,
                Error::ConnectionClosed => r@ == "Network Error: Peer closed connection"@,
                Error::Msg(m) => r@ == "General Error: "@ + m@,
                Error::Io(_) => r@.len() >= 10 && r@.subrange(0, 10) == "IO Error: "@,
            },
    {
        match self {
            Error::IncompleteRequestData => "Parse Error: Incomplete request data".to_owned(),
            Error::InvalidRequestData => "Parse Error: Invalid request data".to_owned(),
            Error::ConnectionClosed => "Network Error: Peer closed connection".to_owned(),
            Error::Msg(m) => "General Error: ".to_owned().concat(m.as_str()),
            Error::Io(e) => {
                let text = io_error_text(e);
                let r = "IO Error: ".to_owned().concat(text.as_str());
                proof {
                    reveal_strlit("IO Error: ");
                    assert(r@.subrange(0, 10) =~= "IO Error: "@);
                }
                r
            },
        }
    }
}

} // verus!
