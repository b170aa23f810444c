//! The errors that the library reports.

use vstd::prelude::*;

verus! {

/// What went wrong, with the message for the user.
#[derive(Debug)]
pub enum Error {
    /// The request itself cannot be carried out as given.
    Config(String),
    /// A server refused, or sent what cannot be used.
    Server(String),
}

/// An [`Error`] with its message as a sequence of characters.
pub enum Fault {
    /// See [`Error::Config`].
    Config(Seq<char>),
    /// See [`Error::Server`].
    Server(Seq<char>),
}

impl View for Error {
    type V = Fault;

    open spec fn view(&self) -> Fault {
        match *self {
            Error::Config(message) => Fault::Config(message@),
            Error::Server(message) => Fault::Server(message@),
        }
    }
}

/// A result whose value is a string, by its text.
pub open spec fn outcome(r: Result<String, Error>) -> Result<Seq<char>, Fault> {
    match r {
        Ok(text) => Ok(text@),
        Err(error) => Err(error@),
    }
}

impl Error {
    /// The message for the user.
    pub fn message(&self) -> (r: &str)
        ensures
            r@ == match self@ {
                Fault::Config(message) => message,
                Fault::Server(message) => message,
            },
    {
        match self {
            Error::Config(message) => message.as_str(),
            Error::Server(message) => message.as_str(),
        }
    }
}

/// Law: an outcome tells a text from an error, and what either says.
pub proof fn law_outcome(r: Result<String, Error>)
    ensures
        r matches Ok(text) ==> outcome(r) == Ok::<Seq<char>, Fault>(text@),
        r matches Err(Error::Config(message)) ==> outcome(r) == Err::<Seq<char>, Fault>(
            Fault::Config(message@),
        ),
        r matches Err(Error::Server(message)) ==> outcome(r) == Err::<Seq<char>, Fault>(
            Fault::Server(message@),
        ),
{
}

} // verus!
