//! What can go wrong.

use vstd::prelude::*;
use vstd::string::*;
use crate::digest::hash_hex;
use crate::digest::hex_text;

verus! {

/// `std::io::Error`, carried through unread.
#[verifier::external_type_specification]
#[verifier::external_body]
pub struct ExIoError(std::io::Error);

#[derive(Debug)]
pub enum Error {
    Io(std::io::Error),
    Corrupt(String),
    MissingObject(crate::Hash),
    NotInitialized,
    BadHash(String),
    Sync(String),
    UnsafePath(String),
    Locked(String),
}

pub type Result<T> = std::result::Result<T, Error>;

/// An error with its texts as characters and its hash as bytes.
pub enum ErrorView {
    Io(std::io::Error),
    Corrupt(Seq<char>),
    MissingObject(Seq<u8>),
    NotInitialized,
    BadHash(Seq<char>),
    Sync(Seq<char>),
    UnsafePath(Seq<char>),
    Locked(Seq<char>),
}

impl View for Error {
    type V = ErrorView;

    open spec fn view(&self) -> ErrorView {
        match self {
            Error::Io(e) => ErrorView::Io(*e),
            Error::Corrupt(m) => ErrorView::Corrupt(m@),
            Error::MissingObject(h) => ErrorView::MissingObject(h@),
            Error::NotInitialized => ErrorView::NotInitialized,
            Error::BadHash(m) => ErrorView::BadHash(m@),
            Error::Sync(m) => ErrorView::Sync(m@),
            Error::UnsafePath(p) => ErrorView::UnsafePath(p@),
            Error::Locked(m) => ErrorView::Locked(m@),
        }
    }
}

/// What `{:?}` prints for a `str`: the text in double quotes, with quotes,
/// backslashes, control and other unprintable characters escaped.
pub uninterp spec fn debug_text(s: Seq<char>) -> Seq<char>;

/// `std`'s `Debug` for `str`: the printed form depends on the text alone.
#[verifier::external_body]
pub(crate) fn debug_of(s: &str) -> (r: String)
    ensures
        r@ == debug_text(s@),
{
    format!("{s:?}")
}

/// `std`'s `Display` for `std::io::Error`: the operating system's own words,
/// of which nothing is claimed.
#[verifier::external_body]
fn io_text(e: &std::io::Error) -> (r: String) {
    format!("{e}")
}

impl ErrorView {
    /// The message for the user. The text of an I/O error is the operating
    /// system's.
    pub open spec fn message(self) -> Seq<char> {
        match self {
            ErrorView::Io(e) => arbitrary(),
            ErrorView::Corrupt(m) => "corrupt state: "@ + m,
            ErrorView::MissingObject(h) => "missing object "@ + hex_text(h),
            ErrorView::NotInitialized => "not a respawn worktree (run `respawn init`)"@,
            ErrorView::BadHash(m) => "bad hash: "@ + m,
            ErrorView::Sync(m) => "sync error: "@ + m,
            ErrorView::UnsafePath(p) => "unsafe path in manifest: "@ + debug_text(p),
            ErrorView::Locked(m) => "locked: "@ + m,
        }
    }
}

impl Error {
    /// The message for the user.
    pub fn message(&self) -> (r: String)
        ensures
            !(self is Io) ==> r@ == self@.message(),
            match *self {
                Error::Io(_) => true,
                Error::Corrupt(m) => r@ == "corrupt state: "@ + m@,
                Error::MissingObject(h) => r@ == "missing object "@ + hex_text(h@),
                Error::NotInitialized => r@ == "not a respawn worktree (run `respawn init`)"@,
                Error::BadHash(m) => r@ == "bad hash: "@ + m@,
                Error::Sync(m) => r@ == "sync error: "@ + m@,
                Error::UnsafePath(p) => r@ == "unsafe path in manifest: "@ + debug_text(p@),
                Error::Locked(m) => r@ == "locked: "@ + m@,
            },
    {
        match self {
            Error::Io(e) => io_text(e),
            Error::Corrupt(m) => String::from_str("corrupt state: ").concat(m.as_str()),
            Error::MissingObject(h) => {
                String::from_str("missing object ").concat(hash_hex(h).as_str())
            },
            Error::NotInitialized => {
                String::from_str("not a respawn worktree (run `respawn init`)")
            },
            Error::BadHash(m) => String::from_str("bad hash: ").concat(m.as_str()),
            Error::Sync(m) => String::from_str("sync error: ").concat(m.as_str()),
            Error::UnsafePath(p) => {
                String::from_str("unsafe path in manifest: ").concat(debug_of(p.as_str()).as_str())
            },
            Error::Locked(m) => String::from_str("locked: ").concat(m.as_str()),
        }
    }
}

impl vstd::std_specs::convert::FromSpecImpl<std::io::Error> for Error {
    open spec fn obeys_from_spec() -> bool {
        true
    }

    open spec fn from_spec(e: std::io::Error) -> Error {
        Error::Io(e)
    }
}

impl From<std::io::Error> for Error {
    fn from(e: std::io::Error) -> (r: Error) {
        Error::Io(e)
    }
}

/// A corrupt-state error with the given message.
pub fn corrupt(m: &str) -> (r: Error)
    ensures
        r@ == ErrorView::Corrupt(m@),
{
    Error::Corrupt(m.to_owned())
}

/// The error for JSON that does not parse, with the parser's message.
pub fn json_error(m: &str) -> (r: Error)
    ensures
        r@ == ErrorView::Corrupt("json: "@ + m@),
{
    Error::Corrupt(String::from_str("json: ").concat(m))
}

/// Errors are told apart by their kind and by what they say.
pub proof fn errors_are_told_apart(m: String, h: crate::Hash, e: std::io::Error)
    ensures
        Error::Io(e)@ == ErrorView::Io(e),
        Error::Corrupt(m)@ == ErrorView::Corrupt(m@),
        Error::MissingObject(h)@ == ErrorView::MissingObject(h@),
        Error::NotInitialized@ == ErrorView::NotInitialized,
        Error::BadHash(m)@ == ErrorView::BadHash(m@),
        Error::Sync(m)@ == ErrorView::Sync(m@),
        Error::UnsafePath(m)@ == ErrorView::UnsafePath(m@),
        Error::Locked(m)@ == ErrorView::Locked(m@),
{
}

} // verus!
