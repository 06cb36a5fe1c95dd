use vstd::prelude::*;

verus! {

/// Errors produced while decoding.
#[derive(Debug)]
pub enum Error {
    /// The stream breaks a rule of the format.
    Undecodable(&'static str),
    /// A packet of another kind than the one expected.
    WrongPacketKind(&'static str),
    /// The packet ended inside floor or residue data, where that is tolerated.
    ExpectedEof(&'static str),
    /// The byte source ran out of bits.
    Io(&'static str),
}

/// The kind of an [`Error`], without its message.
#[derive(Clone, Copy, Debug, PartialEq, Eq, Structural)]
pub enum ErrorKind {
    Undecodable,
    WrongPacketKind,
    ExpectedEof,
    Io,
}

pub type Result<T> = core::result::Result<T, Error>;

/// The kind of an error, as a specification.
pub open spec fn kind_of(e: Error) -> ErrorKind {
    match e {
        Error::Undecodable(_) => ErrorKind::Undecodable,
        Error::WrongPacketKind(_) => ErrorKind::WrongPacketKind,
        Error::ExpectedEof(_) => ErrorKind::ExpectedEof,
        Error::Io(_) => ErrorKind::Io,
    }
}

impl Error {
    pub fn kind(&self) -> (r: ErrorKind)
        ensures
            r == kind_of(*self),
    {
        match self {
            Error::Undecodable(_) => ErrorKind::Undecodable,
            Error::ExpectedEof(_) => ErrorKind::ExpectedEof,
            Error::WrongPacketKind(_) => ErrorKind::WrongPacketKind,
            Error::Io(_) => ErrorKind::Io,
        }
    }
}

/// The error as it is seen at a point where running out of input is expected:
/// running out of bits becomes [`Error::ExpectedEof`], other errors stay.
pub open spec fn eof_expected(e: Error) -> Error {
    match e {
        Error::Io(_) => Error::ExpectedEof("Expected EOF"),
        _ => e,
    }
}

/// Turns running out of bits into [`Error::ExpectedEof`].
pub fn expect_eof(e: Error) -> (r: Error)
    ensures
        r == eof_expected(e),
{
    match e {
        Error::Io(_) => Error::ExpectedEof("Expected EOF"),
        e => e,
    }
}

/// A result where running out of input is expected.
pub trait ExpectEof<T>: Sized {
    spec fn eof_expected_result(self) -> Result<T>;

    fn expect_eof(self) -> (r: Result<T>)
        ensures
            r == self.eof_expected_result(),
    ;
}

impl<T> ExpectEof<T> for Result<T> {
    open spec fn eof_expected_result(self) -> Result<T> {
        match self {
            Err(e) => Err(eof_expected(e)),
            Ok(v) => Ok(v),
        }
    }

    fn expect_eof(self) -> (r: Result<T>) {
        match self {
            Err(e) => Err(expect_eof(e)),
            Ok(v) => Ok(v),
        }
    }
}

} // verus!
