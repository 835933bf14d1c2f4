//! Error type of the library.

use vstd::prelude::*;

verus! {

/// The error of an I/O operation, from `std::io`, carried unchanged.
#[verifier::external_type_specification]
#[verifier::external_body]
pub struct ExIoError(std::io::Error);

/// Errors produced by the search engine.
#[derive(Debug)]
pub enum Error {
    /// I/O failed while loading or saving an index.
    Io(std::io::Error),
    /// The stored index could not be decoded.
    Decode(String),
    /// The in-memory index could not be encoded for persistence.
    Encode(String),
    /// A document with the given external id already exists.
    DuplicateDocId(String),
}

impl Error {
    /// The message of the error, as its display form reads.
    pub fn message(&self) -> (r: String)
        ensures
            self matches Error::Decode(s) ==> r@ == "decode error: "@ + s@,
            self matches Error::Encode(s) ==> r@ == "encode error: "@ + s@,
            self matches Error::DuplicateDocId(s) ==> r@ == "duplicate document id: "@ + s@,
            self matches Error::Io(_) ==> "io error: "@.is_prefix_of(r@),
    {
        match self {
            Error::Io(e) => concat2("io error: ", io_error_text(e).as_str()),
            Error::Decode(s) => concat2("decode error: ", s.as_str()),
            Error::Encode(s) => concat2("encode error: ", s.as_str()),
            Error::DuplicateDocId(s) => concat2("duplicate document id: ", s.as_str()),
        }
    }
}

/// `a` followed by `b`.
fn concat2(a: &str, b: &str) -> (r: String)
    ensures
        r@ == a@ + b@,
{
    let mut out = a.to_owned();
    out.append(b);
    out
}

/// Calls `ToString::to_string` on an I/O error, which gives its `Display`
/// form. That text comes from the operating system, so nothing is claimed of
/// it.
#[verifier::external_body]
fn io_error_text(e: &std::io::Error) -> String {
    e.to_string()
}

/// Convenience alias: `Result<T, Error>`.
pub type Result<T> = core::result::Result<T, Error>;

} // verus!
