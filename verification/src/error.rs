use std::convert::Infallible;
use vstd::prelude::*;

verus! {

/// The error type of the standard library's I/O operations. The log itself
/// never produces one; a caller that stores chunk images on disk reports
/// its failures through [`Error::Io`].
#[verifier::external_type_specification]
#[verifier::external_body]
pub struct ExIoError(std::io::Error);

/// Everything that can go wrong with a write-ahead log. `T` is the error of
/// the entry type in use.
#[derive(Debug)]
pub enum Error<T = Infallible> {
    /// System IO error
    Io(std::io::Error),
    /// The provided path is not a directory
    NotADirectory,
    /// A name in the log directory is not the name of a chunk
    NotAFile,
    /// An acknowledgement record is corrupted
    InvalidAck,
    /// A data record is corrupted
    InvalidEntry,
    /// A chunk does not end in a record
    InvalidFile,
    /// The log is over its limits and cannot be written to
    SizeExceeded,
    /// The index to acknowledge is not between the last acknowledged index
    /// and the read index
    InvalidAckId,
    /// The index to seek to lies before the first chunk
    InvalidIndex,
    /// The entry could not be serialized or deserialized
    Entry(T),
}

impl<T> From<std::io::Error> for Error<T> {
    fn from(e: std::io::Error) -> (r: Self) {
        Error::Io(e)
    }
}

impl<T> vstd::std_specs::convert::FromSpecImpl<std::io::Error> for Error<T> {
    open spec fn obeys_from_spec() -> bool {
        true
    }

    open spec fn from_spec(e: std::io::Error) -> Self {
        Error::Io(e)
    }
}

/// Calls `to_string` of the standard library on an I/O error, which
/// gives the text that the error displays. What that text is depends on
/// the error and on the system, so nothing is stated of it.
#[verifier::external_body]
fn io_message(e: &std::io::Error) -> (text: String) {
    e.to_string()
}

impl<T> Error<T> {
    /// The text that describes the kind of the error, where the kind has
    /// a text of its own.
    pub open spec fn text(self) -> Option<Seq<char>> {
        match self {
            Error::Io(_) => None,
            Error::NotADirectory => Some("Not a directory"@),
            Error::NotAFile => Some("Not a file"@),
            Error::InvalidAck => Some("Invalid WAL entry (ACK)"@),
            Error::InvalidEntry => Some("Invalid WAL entry (Entry)"@),
            Error::InvalidFile => Some("Invalid WAL File"@),
            Error::SizeExceeded => Some("WAL Size Exceeded"@),
            Error::InvalidAckId => Some("Invalid Ack Index"@),
            Error::InvalidIndex => Some("Invalid Index"@),
            Error::Entry(_) => Some("Invalid Entry"@),
        }
    }

    /// The text that describes the error; for an I/O error, the text of
    /// that error.
    pub fn message(&self) -> (text: String)
        ensures
            self.text() matches Some(t) ==> text@ == t,
    {
        match self {
            Error::Io(e) => io_message(e),
            Error::NotADirectory => "Not a directory".to_owned(),
            Error::NotAFile => "Not a file".to_owned(),
            Error::InvalidAck => "Invalid WAL entry (ACK)".to_owned(),
            Error::InvalidEntry => "Invalid WAL entry (Entry)".to_owned(),
            Error::InvalidFile => "Invalid WAL File".to_owned(),
            Error::SizeExceeded => "WAL Size Exceeded".to_owned(),
            Error::InvalidAckId => "Invalid Ack Index".to_owned(),
            Error::InvalidIndex => "Invalid Index".to_owned(),
            Error::Entry(_) => "Invalid Entry".to_owned(),
        }
    }
}

/// Carries an error of the log over to the error type of an entry type.
pub fn match_error<T>(e: Error) -> (r: Error<T>)
    requires
        !(e is Entry),
    ensures
        same_kind(e, r),
        e matches Error::Io(inner) ==> r == Error::<T>::Io(inner),
{
    match e {
        Error::Io(e) => Error::Io(e),
        Error::NotADirectory => Error::NotADirectory,
        Error::NotAFile => Error::NotAFile,
        Error::InvalidAck => Error::InvalidAck,
        Error::InvalidEntry => Error::InvalidEntry,
        Error::InvalidFile => Error::InvalidFile,
        Error::SizeExceeded => Error::SizeExceeded,
        Error::InvalidAckId => Error::InvalidAckId,
        Error::InvalidIndex => Error::InvalidIndex,
        Error::Entry(_) => vstd::pervasive::unreached(),
    }
}

/// Whether two errors are of the same variant.
pub open spec fn same_kind<S, T>(a: Error<S>, b: Error<T>) -> bool {
    match a {
        Error::Io(_) => b is Io,
        Error::NotADirectory => b is NotADirectory,
        Error::NotAFile => b is NotAFile,
        Error::InvalidAck => b is InvalidAck,
        Error::InvalidEntry => b is InvalidEntry,
        Error::InvalidFile => b is InvalidFile,
        Error::SizeExceeded => b is SizeExceeded,
        Error::InvalidAckId => b is InvalidAckId,
        Error::InvalidIndex => b is InvalidIndex,
        Error::Entry(_) => b is Entry,
    }
}

} // verus!
