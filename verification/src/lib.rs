//! A verified backend for multilinear polynomial commitments and the
//! shift-open protocol.

pub mod backend;
pub mod pcs;
pub mod piop;
pub mod poly;
pub mod transform;
pub mod util;

use vstd::prelude::*;

pub use halo2curves;

verus! {

/// The category of an input or output failure.
#[verifier::external_type_specification]
pub struct ExErrorKind(std::io::ErrorKind);

/// `clone` of `std::io::ErrorKind`: a copy.
pub assume_specification[ <std::io::ErrorKind as Clone>::clone ](k: &std::io::ErrorKind) -> (r:
    std::io::ErrorKind)
    ensures
        r == *k,
;

/// What can go wrong while proving or verifying.
#[derive(Clone, Debug, PartialEq)]
pub enum Error {
    InvalidSumcheck(String),
    InvalidPcsParam(String),
    InvalidPcsOpen(String),
    InvalidSnark(String),
    Serialization(String),
    Transcript(std::io::ErrorKind, String),
    NotImplemented(String),
    InternalError(String),
    InvalidRotation(String),
    InvalidQuotient(String),
    InvalidInput(String),
}

/// The contents of an [`Error`], with each message as its characters.
pub enum ErrorView {
    InvalidSumcheck(Seq<char>),
    InvalidPcsParam(Seq<char>),
    InvalidPcsOpen(Seq<char>),
    InvalidSnark(Seq<char>),
    Serialization(Seq<char>),
    Transcript(std::io::ErrorKind, Seq<char>),
    NotImplemented(Seq<char>),
    InternalError(Seq<char>),
    InvalidRotation(Seq<char>),
    InvalidQuotient(Seq<char>),
    InvalidInput(Seq<char>),
}

impl View for Error {
    type V = ErrorView;

    open spec fn view(&self) -> ErrorView {
        match self {
            Error::InvalidSumcheck(s) => ErrorView::InvalidSumcheck(s@),
            Error::InvalidPcsParam(s) => ErrorView::InvalidPcsParam(s@),
            Error::InvalidPcsOpen(s) => ErrorView::InvalidPcsOpen(s@),
            Error::InvalidSnark(s) => ErrorView::InvalidSnark(s@),
            Error::Serialization(s) => ErrorView::Serialization(s@),
            Error::Transcript(k, s) => ErrorView::Transcript(*k, s@),
            Error::NotImplemented(s) => ErrorView::NotImplemented(s@),
            Error::InternalError(s) => ErrorView::InternalError(s@),
            Error::InvalidRotation(s) => ErrorView::InvalidRotation(s@),
            Error::InvalidQuotient(s) => ErrorView::InvalidQuotient(s@),
            Error::InvalidInput(s) => ErrorView::InvalidInput(s@),
        }
    }
}

/// What a fallible computation comes to, with errors by their contents.
pub open spec fn outcome<T>(r: Result<T, Error>) -> Result<T, ErrorView> {
    match r {
        Ok(v) => Ok(v),
        Err(e) => Err(e@),
    }
}

} // verus!
