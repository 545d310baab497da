//! The single error value every stage of the conversion reports.

use vstd::prelude::*;

verus! {

/// What went wrong, with a human-readable message. The first failure
/// anywhere aborts the whole conversion; nothing is retried.
#[derive(Debug)]
pub enum Error {
    /// The workbook bytes could not be decoded.
    Decode(String),
    /// A sheet name was missing from the pool, or already consumed.
    NotFound(String),
    /// A sheet grid had no header row.
    Empty(String),
    /// A required column was absent, or a row had the wrong shape.
    Column(String),
    /// A cell that must hold data was empty.
    NoData(String),
    /// A number could not be read where no fallback is defined.
    Parse(String),
}

impl Error {
    /// The message carried by the error.
    pub fn message(&self) -> &String {
        match self {
            Error::Decode(m) => m,
            Error::NotFound(m) => m,
            Error::Empty(m) => m,
            Error::Column(m) => m,
            Error::NoData(m) => m,
            Error::Parse(m) => m,
        }
    }
}

} // verus!
