//! The failures that reading a BigBed file can end in.

use vstd::prelude::*;

verus! {

/// Why the byte source refused a read or a seek.
#[derive(Clone, Copy, Debug, PartialEq, Eq, Structural)]
pub enum IoErrorKind {
    /// Fewer bytes were left than the read asked for.
    UnexpectedEof,
    /// A seek aimed before the start or beyond what a position can hold.
    InvalidInput,
    /// Any other failure of the medium.
    Other,
}

/// A failure of the byte source. No two of them are equal, not even one and
/// itself.
#[derive(Debug)]
pub struct IOErrorWrapper(pub IoErrorKind);

impl PartialEq for IOErrorWrapper {
    fn eq(&self, _other: &IOErrorWrapper) -> (r: bool) {
        false
    }
}

impl vstd::std_specs::cmp::PartialEqSpecImpl for IOErrorWrapper {
    open spec fn obeys_eq_spec() -> bool {
        true
    }

    open spec fn eq_spec(&self, _other: &IOErrorWrapper) -> bool {
        false
    }
}

#[derive(Debug, PartialEq)]
pub enum Error {
    /// The byte source failed: the file is truncated, or a seek went out of range.
    IOError(IOErrorWrapper),
    /// A compressed block is not a valid zlib stream.
    DecompressError,
    /// Four bytes that should have been a signature are neither `expected`
    /// nor its reversal.
    BadSig { expected: [u8; 4], received: [u8; 4] },
    /// No chromosome of this name is in the file.
    BadChrom(String),
    /// The name is longer than the keys of the chromosome tree, whose width
    /// is the second field.
    BadKey(String, usize),
    /// A size or an offset in the file does not fit the platform's `usize`.
    ConversionError(std::num::TryFromIntError),
    /// The file breaks the format in the way the message says.
    Misc(&'static str),
}

/// What an [`Error`] says, with its strings and arrays as sequences.
pub enum ErrorView {
    IOError(IoErrorKind),
    DecompressError,
    BadSig { expected: Seq<u8>, received: Seq<u8> },
    BadChrom(Seq<char>),
    BadKey(Seq<char>, usize),
    ConversionError,
    Misc(Seq<char>),
}

impl View for Error {
    type V = ErrorView;

    open spec fn view(&self) -> ErrorView {
        match self {
            Error::IOError(w) => ErrorView::IOError(w.0),
            Error::DecompressError => ErrorView::DecompressError,
            Error::BadSig { expected, received } => ErrorView::BadSig {
                expected: expected@,
                received: received@,
            },
            Error::BadChrom(name) => ErrorView::BadChrom(name@),
            Error::BadKey(name, width) => ErrorView::BadKey(name@, *width),
            Error::ConversionError(_) => ErrorView::ConversionError,
            Error::Misc(msg) => ErrorView::Misc(msg@),
        }
    }
}

impl From<IoErrorKind> for Error {
    fn from(kind: IoErrorKind) -> (e: Error) {
        Error::IOError(IOErrorWrapper(kind))
    }
}

impl vstd::std_specs::convert::FromSpecImpl<IoErrorKind> for Error {
    open spec fn obeys_from_spec() -> bool {
        true
    }

    open spec fn from_spec(kind: IoErrorKind) -> Error {
        Error::IOError(IOErrorWrapper(kind))
    }
}

impl From<&'static str> for Error {
    fn from(msg: &'static str) -> (e: Error) {
        Error::Misc(msg)
    }
}

impl vstd::std_specs::convert::FromSpecImpl<&'static str> for Error {
    open spec fn obeys_from_spec() -> bool {
        true
    }

    open spec fn from_spec(msg: &'static str) -> Error {
        Error::Misc(msg)
    }
}

impl From<flate2::DecompressError> for Error {
    fn from(_e: flate2::DecompressError) -> (e: Error) {
        Error::DecompressError
    }
}

impl vstd::std_specs::convert::FromSpecImpl<flate2::DecompressError> for Error {
    open spec fn obeys_from_spec() -> bool {
        true
    }

    open spec fn from_spec(_e: flate2::DecompressError) -> Error {
        Error::DecompressError
    }
}

impl From<std::num::TryFromIntError> for Error {
    fn from(e: std::num::TryFromIntError) -> (r: Error) {
        Error::ConversionError(e)
    }
}

impl vstd::std_specs::convert::FromSpecImpl<std::num::TryFromIntError> for Error {
    open spec fn obeys_from_spec() -> bool {
        true
    }

    open spec fn from_spec(e: std::num::TryFromIntError) -> Error {
        Error::ConversionError(e)
    }
}

/// The failure with the given message.
pub open spec fn misc_error(msg: &'static str) -> ErrorView {
    ErrorView::Misc(msg@)
}

/// The failure of a read that found too few bytes.
pub open spec fn eof_error() -> ErrorView {
    ErrorView::IOError(IoErrorKind::UnexpectedEof)
}

/// The failure of a seek out of range.
pub open spec fn seek_error() -> ErrorView {
    ErrorView::IOError(IoErrorKind::InvalidInput)
}

} // verus!

verus! {

/// `head` put in front of what `tail` holds, or the failure of `tail`.
pub open spec fn then_extend<T>(head: Seq<T>, tail: Result<Seq<T>, ErrorView>) -> Result<
    Seq<T>,
    ErrorView,
> {
    match tail {
        Ok(rest) => Ok(head + rest),
        Err(e) => Err(e),
    }
}

/// Putting `head` in front of `added` in front of `tail` is putting
/// `head + added` in front of `tail`.
pub proof fn lemma_then_extend_twice<T>(
    head: Seq<T>,
    added: Seq<T>,
    tail: Result<Seq<T>, ErrorView>,
)
    ensures
        then_extend(head, then_extend(added, tail)) == then_extend(head + added, tail),
{
    match tail {
        Ok(rest) => {
            assert(head + (added + rest) =~= (head + added) + rest);
        },
        Err(_) => {},
    }
}

/// Putting nothing in front of `tail` leaves it as it is, and putting
/// `head` in front of nothing gives `head`.
pub proof fn lemma_then_extend_empty<T>(head: Seq<T>, tail: Result<Seq<T>, ErrorView>)
    ensures
        then_extend(Seq::<T>::empty(), tail) == tail,
        then_extend(head, Ok(Seq::<T>::empty())) == Ok::<Seq<T>, ErrorView>(head),
{
    match tail {
        Ok(rest) => {
            assert(Seq::<T>::empty() + rest =~= rest);
        },
        Err(_) => {},
    }
    assert(head + Seq::<T>::empty() =~= head);
}

} // verus!
