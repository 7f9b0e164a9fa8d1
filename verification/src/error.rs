//! What can go wrong with a PDF.

use crate::text::{chars_of, contains_text, has_text};
use vstd::prelude::*;

verus! {

#[verifier::external_type_specification]
#[verifier::external_body]
pub struct ExError(lopdf::Error);

/// An error of this crate.
#[derive(Debug)]
pub enum PdfError {
    /// Reading the file failed.
    Io(String),
    /// The document could not be parsed.
    Parse(String),
    /// The document is encrypted.
    Encrypted,
    /// The structure of the document is broken.
    InvalidStructure,
    /// The data is no PDF; the text says what it seems to be.
    NotAPdf(String),
}

/// A failure of the `lopdf` crate, as far as this crate tells failures apart.
#[derive(Debug)]
pub enum Failure {
    /// An input or output error, with its message.
    Io(String),
    Decryption,
    InvalidPassword,
    AlreadyEncrypted,
    UnsupportedSecurityHandler,
    /// A parse error, with the message of the parser.
    Parse(String),
    MissingXrefEntry,
    Xref,
    IndirectObject,
    ObjectIdMismatch,
    InvalidObjectStream,
    InvalidOffset,
    /// Anything else.
    Other,
}

/// The contents of a [`Failure`]. The message of an input or output error is not among them: it may
/// come from the system.
pub enum FailureKind {
    Io,
    Decryption,
    InvalidPassword,
    AlreadyEncrypted,
    UnsupportedSecurityHandler,
    Parse(Seq<char>),
    MissingXrefEntry,
    Xref,
    IndirectObject,
    ObjectIdMismatch,
    InvalidObjectStream,
    InvalidOffset,
    Other,
}

impl View for Failure {
    type V = FailureKind;

    open spec fn view(&self) -> FailureKind {
        match *self {
            Failure::Io(_) => FailureKind::Io,
            Failure::Decryption => FailureKind::Decryption,
            Failure::InvalidPassword => FailureKind::InvalidPassword,
            Failure::AlreadyEncrypted => FailureKind::AlreadyEncrypted,
            Failure::UnsupportedSecurityHandler => FailureKind::UnsupportedSecurityHandler,
            Failure::Parse(inner) => FailureKind::Parse(inner@),
            Failure::MissingXrefEntry => FailureKind::MissingXrefEntry,
            Failure::Xref => FailureKind::Xref,
            Failure::IndirectObject => FailureKind::IndirectObject,
            Failure::ObjectIdMismatch => FailureKind::ObjectIdMismatch,
            Failure::InvalidObjectStream => FailureKind::InvalidObjectStream,
            Failure::InvalidOffset => FailureKind::InvalidOffset,
            Failure::Other => FailureKind::Other,
        }
    }
}

/// Which failure an error of `lopdf` is.
pub uninterp spec fn error_failure(error: lopdf::Error) -> FailureKind;

/// How an error of `lopdf` words itself.
pub uninterp spec fn error_message(error: lopdf::Error) -> Seq<char>;

/// Takes a `lopdf::Error` apart by its variants; of a parse error, the message is that of the inner
/// error.
#[verifier::external_body]
pub(crate) fn failure_of(e: &lopdf::Error) -> (r: Failure)
    ensures
        r@ == error_failure(*e),
{
    match e {
        lopdf::Error::IO(x) => Failure::Io(x.to_string()),
        lopdf::Error::Decryption(_) => Failure::Decryption,
        lopdf::Error::InvalidPassword => Failure::InvalidPassword,
        lopdf::Error::AlreadyEncrypted => Failure::AlreadyEncrypted,
        lopdf::Error::UnsupportedSecurityHandler(_) => Failure::UnsupportedSecurityHandler,
        lopdf::Error::Parse(p) => Failure::Parse(p.to_string()),
        lopdf::Error::MissingXrefEntry => Failure::MissingXrefEntry,
        lopdf::Error::Xref(_) => Failure::Xref,
        lopdf::Error::IndirectObject { .. } => Failure::IndirectObject,
        lopdf::Error::ObjectIdMismatch => Failure::ObjectIdMismatch,
        lopdf::Error::InvalidObjectStream(_) => Failure::InvalidObjectStream,
        lopdf::Error::InvalidOffset(_) => Failure::InvalidOffset,
        _ => Failure::Other,
    }
}

/// The `Display` form of a `lopdf::Error`. That of an input or output error may hold a message of
/// the system, and nothing is promised of it.
#[verifier::external_body]
pub(crate) fn message_of(e: &lopdf::Error) -> (r: String)
    ensures
        !(error_failure(*e) is Io) ==> r@ == error_message(*e),
{
    e.to_string()
}

/// Which error a failure with the given message is reported as.
pub open spec fn reports(error: PdfError, kind: FailureKind, message: Seq<char>) -> bool {
    match kind {
        FailureKind::Io => error is Io,
        FailureKind::Decryption
        | FailureKind::InvalidPassword
        | FailureKind::AlreadyEncrypted
        | FailureKind::UnsupportedSecurityHandler => error is Encrypted,
        FailureKind::Parse(inner) => if has_text(inner, "invalid file header"@) {
            error matches PdfError::NotAPdf(t) && t@ == "invalid PDF file header"@
        } else {
            error matches PdfError::Parse(t) && t@ == message
        },
        FailureKind::MissingXrefEntry
        | FailureKind::Xref
        | FailureKind::IndirectObject
        | FailureKind::ObjectIdMismatch
        | FailureKind::InvalidObjectStream
        | FailureKind::InvalidOffset => error is InvalidStructure,
        FailureKind::Other => error matches PdfError::Parse(t) && t@ == message,
    }
}

impl PdfError {
    /// The error as which a failure with the given message is reported.
    pub fn from_failure(failure: Failure, message: String) -> (r: PdfError)
        ensures
            reports(r, failure@, message@),
            failure matches Failure::Io(m) ==> (r matches PdfError::Io(t) && t@ == m@),
    {
        match failure {
            Failure::Io(m) => PdfError::Io(m),
            Failure::Decryption
            | Failure::InvalidPassword
            | Failure::AlreadyEncrypted
            | Failure::UnsupportedSecurityHandler => PdfError::Encrypted,
            Failure::Parse(inner) => if contains_text(
                chars_of(inner.as_str()).as_slice(),
                "invalid file header",
            ) {
                PdfError::NotAPdf("invalid PDF file header".to_string())
            } else {
                PdfError::Parse(message)
            },
            Failure::MissingXrefEntry
            | Failure::Xref
            | Failure::IndirectObject
            | Failure::ObjectIdMismatch
            | Failure::InvalidObjectStream
            | Failure::InvalidOffset => PdfError::InvalidStructure,
            Failure::Other => PdfError::Parse(message),
        }
    }

    /// The error as which a `lopdf` error is reported.
    pub fn from_lopdf(e: lopdf::Error) -> (r: PdfError)
        ensures
            reports(r, error_failure(e), error_message(e)),
    {
        let message = message_of(&e);
        PdfError::from_failure(failure_of(&e), message)
    }

    /// The message of the error.
    pub open spec fn message_text(self) -> Seq<char> {
        match self {
            PdfError::Io(m) => "IO error: "@ + m@,
            PdfError::Parse(m) => "PDF parsing error: "@ + m@,
            PdfError::Encrypted => "PDF is encrypted"@,
            PdfError::InvalidStructure => "Invalid PDF structure"@,
            PdfError::NotAPdf(m) => "Not a PDF: "@ + m@,
        }
    }

    /// The message of the error.
    pub fn message(&self) -> (r: String)
        ensures
            r@ == self.message_text(),
    {
        match self {
            PdfError::Io(m) => joined("IO error: ", m.as_str()),
            PdfError::Parse(m) => joined("PDF parsing error: ", m.as_str()),
            PdfError::Encrypted => "PDF is encrypted".to_string(),
            PdfError::InvalidStructure => "Invalid PDF structure".to_string(),
            PdfError::NotAPdf(m) => joined("Not a PDF: ", m.as_str()),
        }
    }
}

/// Two texts one after the other.
fn joined(a: &str, b: &str) -> (r: String)
    ensures
        r@ == a@ + b@,
{
    let mut out: String = a.to_string();
    out.append(b);
    out
}

} // verus!
