//! The error of a run, with its message.

use vstd::prelude::*;
use vstd::string::*;

verus! {

/// An error with a description for the user.
#[derive(Debug)]
pub struct Error {
    description: String,
}

impl View for Error {
    type V = Seq<char>;

    closed spec fn view(&self) -> Seq<char> {
        self.description@
    }
}

/// The message of an error that struck while a file was read or written.
pub open spec fn io_message(verb: Seq<char>, path: Seq<char>, cause: Seq<char>) -> Seq<char> {
    "Error when "@ + verb + " "@ + path + ": "@ + cause
}

impl Error {
    pub fn new(description: &str) -> (error: Error)
        ensures
            error@ == description@,
    {
        Error { description: description.to_owned() }
    }

    fn from_io_error(verb: &str, path: &str, cause: &str) -> (error: Error)
        ensures
            error@ == io_message(verb@, path@, cause@),
    {
        let mut message = "Error when ".to_owned();
        message.append(verb);
        message.append(" ");
        message.append(path);
        message.append(": ");
        message.append(cause);
        Error { description: message }
    }

    /// The error for a file that could not be read: it names the file and
    /// the cause.
    pub fn from_read_error(path: &str, cause: &str) -> (res: Result<(), Error>)
        ensures
            res matches Err(error) && error@ == io_message("reading"@, path@, cause@),
    {
        Err(Error::from_io_error("reading", path, cause))
    }

    /// The error for a file that could not be written: it names the file and
    /// the cause.
    pub fn from_write_error(path: &str, cause: &str) -> (res: Result<(), Error>)
        ensures
            res matches Err(error) && error@ == io_message("writing"@, path@, cause@),
    {
        Err(Error::from_io_error("writing", path, cause))
    }

    /// The error for a cause that names no file.
    pub fn from_io_cause(cause: &str) -> (error: Error)
        ensures
            error@ == "I/O error: "@ + cause@,
    {
        let mut message = "I/O error: ".to_owned();
        message.append(cause);
        Error { description: message }
    }

    /// The error for ignore rules that could not be read.
    pub fn from_ignore_cause(cause: &str) -> (error: Error)
        ensures
            error@ == "Error when parsing .ignore files: "@ + cause@,
    {
        let mut message = "Error when parsing .ignore files: ".to_owned();
        message.append(cause);
        Error { description: message }
    }

    /// The description.
    pub fn to_string(&self) -> (text: String)
        ensures
            text@ == self@,
    {
        self.description.clone()
    }
}

} // verus!
