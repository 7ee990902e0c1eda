//! The error type of the library.

use vstd::prelude::*;

verus! {

/// The error of std's I/O traits, which the compression library reports its failures
/// with. Opaque: nothing is claimed of what it holds.
#[verifier::external_type_specification]
#[verifier::external_body]
pub struct ExIoError(std::io::Error);

/// Errors that can occur while encoding, decoding or processing SOE protocol data.
#[derive(Debug)]
pub enum Error {
    /// A buffer was too short to read or write the expected data.
    BufferTooShort {
        /// The number of bytes required.
        needed: usize,
        /// The number of bytes available.
        available: usize,
    },
    /// A value did not fit within the expected bounds.
    OutOfRange(String),
    /// A zlib (de)compression error occurred.
    Zlib(std::io::Error),
}

/// What an [`Error`] says.
pub enum ErrorView {
    /// A buffer was too short to read or write the expected data.
    BufferTooShort {
        /// The number of bytes required.
        needed: usize,
        /// The number of bytes available.
        available: usize,
    },
    /// A value did not fit within the expected bounds.
    OutOfRange(Seq<char>),
    /// A zlib (de)compression error occurred.
    Zlib,
}

impl View for Error {
    type V = ErrorView;

    open spec fn view(&self) -> ErrorView {
        match *self {
            Error::BufferTooShort { needed, available } => ErrorView::BufferTooShort {
                needed,
                available,
            },
            Error::OutOfRange(message) => ErrorView::OutOfRange(message@),
            Error::Zlib(_) => ErrorView::Zlib,
        }
    }
}

} // verus!
