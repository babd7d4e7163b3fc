//! What can go wrong.

use crate::path::{FilePath, PathView};
use crate::text::{concat_text, decimal_text};
use vstd::prelude::*;
use vstd::string::StringExecFns;

verus! {

/// Why a synchronisation, or a step of it, failed.
#[derive(Debug)]
pub enum Error {
    /// A path does not lie below the root that it should lie below.
    StripPrefix,
    /// There is no directory to apply changes to.
    RootDoesNotExist(FilePath),
    /// An instruction copies from behind the end of the file.
    CopyInstructionOutOfBounds { file_len: usize, start: usize, end: usize },
    /// A stream took no more bytes.
    StreamClosedWrite,
    /// A stream gave no more bytes.
    StreamClosedRead,
    /// The receiver reported a failure.
    Receiver(String),
    /// A file to replace has no directory.
    NoParentDir(FilePath),
}

/// What an error says.
pub enum ErrorView {
    StripPrefix,
    RootDoesNotExist(PathView),
    CopyInstructionOutOfBounds { file_len: usize, start: usize, end: usize },
    StreamClosedWrite,
    StreamClosedRead,
    Receiver(Seq<char>),
    NoParentDir(PathView),
}

impl View for Error {
    type V = ErrorView;

    open spec fn view(&self) -> ErrorView {
        match self {
            Error::StripPrefix => ErrorView::StripPrefix,
            Error::RootDoesNotExist(path) => ErrorView::RootDoesNotExist(path@),
            Error::CopyInstructionOutOfBounds { file_len, start, end } => {
                ErrorView::CopyInstructionOutOfBounds {
                    file_len: *file_len,
                    start: *start,
                    end: *end,
                }
            },
            Error::StreamClosedWrite => ErrorView::StreamClosedWrite,
            Error::StreamClosedRead => ErrorView::StreamClosedRead,
            Error::Receiver(text) => ErrorView::Receiver(text@),
            Error::NoParentDir(path) => ErrorView::NoParentDir(path@),
        }
    }
}

/// The message of an error.
pub open spec fn message_of(error: ErrorView) -> Seq<char> {
    match error {
        ErrorView::StripPrefix => "Path prefix error: prefix not found"@,
        ErrorView::RootDoesNotExist(path) => "Root directory does not exist: "@
            + crate::path::shown(path),
        ErrorView::CopyInstructionOutOfBounds { file_len, start, end } => {
            "Copy instruction bounds error: file len "@ + crate::text::decimal(file_len as nat)
                + ", requested range "@ + crate::text::decimal(start as nat) + ".."@
                + crate::text::decimal(end as nat)
        },
        ErrorView::StreamClosedWrite => "Stream closed before all bytes were written"@,
        ErrorView::StreamClosedRead => "Stream closed before all bytes were received"@,
        ErrorView::Receiver(text) => "Receiver error: "@ + text,
        ErrorView::NoParentDir(path) => "Path parent not found for "@ + crate::path::shown(path),
    }
}

impl Error {
    /// The message of the error.
    pub fn message(&self) -> (r: String)
        ensures
            r@ == message_of(self@),
    {
        match self {
            Error::StripPrefix => "Path prefix error: prefix not found".to_owned(),
            Error::RootDoesNotExist(path) => concat_text(
                "Root directory does not exist: ",
                path.display().as_str(),
            ),
            Error::CopyInstructionOutOfBounds { file_len, start, end } => {
                let mut r = "Copy instruction bounds error: file len ".to_owned();
                r.append(decimal_text(*file_len).as_str());
                r.append(", requested range ");
                r.append(decimal_text(*start).as_str());
                r.append("..");
                r.append(decimal_text(*end).as_str());
                r
            },
            Error::StreamClosedWrite => "Stream closed before all bytes were written".to_owned(),
            Error::StreamClosedRead => "Stream closed before all bytes were received".to_owned(),
            Error::Receiver(text) => concat_text("Receiver error: ", text.as_str()),
            Error::NoParentDir(path) => concat_text(
                "Path parent not found for ",
                path.display().as_str(),
            ),
        }
    }
}

/// The message of each error says what went wrong and, where there is one, the path, the
/// range or the receiver's own words.
pub proof fn lemma_messages(
    path: PathView,
    text: Seq<char>,
    file_len: usize,
    start: usize,
    end: usize,
)
    ensures
        message_of(ErrorView::StripPrefix) == "Path prefix error: prefix not found"@,
        message_of(ErrorView::RootDoesNotExist(path)) == "Root directory does not exist: "@
            + crate::text::text_of(path),
        message_of(ErrorView::CopyInstructionOutOfBounds { file_len, start, end })
            == "Copy instruction bounds error: file len "@ + crate::text::decimal(file_len as nat)
            + ", requested range "@ + crate::text::decimal(start as nat) + ".."@
            + crate::text::decimal(end as nat),
        message_of(ErrorView::StreamClosedWrite) == "Stream closed before all bytes were written"@,
        message_of(ErrorView::StreamClosedRead) == "Stream closed before all bytes were received"@,
        message_of(ErrorView::Receiver(text)) == "Receiver error: "@ + text,
        message_of(ErrorView::NoParentDir(path)) == "Path parent not found for "@
            + crate::text::text_of(path),
{
}

/// The view of an error shows its kind and all that it tells.
pub proof fn lemma_error_view(error: Error)
    ensures
        error matches Error::StripPrefix ==> error@ is StripPrefix,
        error matches Error::RootDoesNotExist(path) ==> error@ == ErrorView::RootDoesNotExist(
            path@,
        ),
        error matches Error::CopyInstructionOutOfBounds { file_len, start, end } ==> error@ == (
        ErrorView::CopyInstructionOutOfBounds { file_len, start, end }),
        error matches Error::StreamClosedWrite ==> error@ is StreamClosedWrite,
        error matches Error::StreamClosedRead ==> error@ is StreamClosedRead,
        error matches Error::Receiver(text) ==> error@ == ErrorView::Receiver(text@),
        error matches Error::NoParentDir(path) ==> error@ == ErrorView::NoParentDir(path@),
{
}

} // verus!
