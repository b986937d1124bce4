//! Reading and selectively resetting PDF AcroForm fields.
//!
//! The library holds a PDF's objects as plain values, reads the AcroForm
//! field tree out of them, and plans and applies a reset as edits to those
//! objects; lopdf reads the file and writes the incremental update.

pub mod bridge;
pub mod document;
pub mod form;
pub mod ids;
pub mod laws;
pub mod names;
pub mod object;
pub mod reading;
pub mod reset;
pub mod text;

pub use crate::form::{read_form, Field, FieldKind, Form, Widget};
pub use crate::ids::{decode_id, encode_id};
pub use crate::reset::{read_form_bytes, reset_bytes, ResetMode, ResetOutput, ResetReport};

use vstd::prelude::*;
use crate::bridge::{lopdf_message, lossy_text, utf8_lossy};
use crate::document::{Fault, PdfError};
use crate::ids::id_text;

verus! {

/// Why a form could not be read or reset.
#[derive(Debug)]
pub enum Error {
    /// The file is encrypted.
    Encrypted,
    /// The file has no document catalog.
    NoCatalog,
    /// The file has no AcroForm dictionary where one is needed.
    NoForm,
    /// No field has this id (`"num gen"`).
    UnknownField(String),
    /// The field is of a kind this library refuses to reset.
    NotResettable { name: String, reason: String },
    /// The update would not have kept the original bytes as they were.
    OriginalNotPreserved,
    /// An object could not be read or written.
    Pdf(PdfError),
}

/// The mathematical value of an [`Error`].
pub enum Failure {
    Encrypted,
    NoCatalog,
    NoForm,
    UnknownField(Seq<char>),
    NotResettable(Seq<char>, Seq<char>),
    OriginalNotPreserved,
    Pdf(Fault),
}

impl View for Error {
    type V = Failure;

    open spec fn view(&self) -> Failure {
        match self {
            Error::Encrypted => Failure::Encrypted,
            Error::NoCatalog => Failure::NoCatalog,
            Error::NoForm => Failure::NoForm,
            Error::UnknownField(id) => Failure::UnknownField(id@),
            Error::NotResettable { name, reason } => Failure::NotResettable(name@, reason@),
            Error::OriginalNotPreserved => Failure::OriginalNotPreserved,
            Error::Pdf(e) => Failure::Pdf(e@),
        }
    }
}

/// What a fault says of itself, for the faults the library itself detects.
pub open spec fn fault_text(f: Fault) -> Seq<char> {
    match f {
        Fault::ObjectNotFound(id) => "object ID "@ + id_text(id) + " not found"@,
        Fault::ReferenceLimit => "dereferencing object reached limit, may indicate a reference cycle"@,
        Fault::WrongType(expected, found) => "object has wrong type; expected type "@ + expected
            + " but found type "@ + found,
        Fault::MissingKey(k) => "missing required dictionary key \""@ + utf8_lossy(k) + "\""@,
        _ => Seq::empty(),
    }
}

impl PdfError {
    /// What went wrong, in words. A file that could not be read or written
    /// is described in lopdf's words.
    pub fn message(&self) -> (r: String)
        ensures
            !(self is Load || self is Save) ==> r@ == fault_text(self@),
    {
        match self {
            PdfError::ObjectNotFound(id) => {
                let mut s = String::from_str("object ID ");
                let id_string = encode_id(*id);
                s.append(id_string.as_str());
                s.append(" not found");
                s
            },
            PdfError::ReferenceLimit => String::from_str(
                "dereferencing object reached limit, may indicate a reference cycle",
            ),
            PdfError::WrongType { expected, found } => {
                let mut s = String::from_str("object has wrong type; expected type ");
                s.append(expected);
                s.append(" but found type ");
                s.append(found);
                s
            },
            PdfError::MissingKey(k) => {
                let mut s = String::from_str("missing required dictionary key \"");
                let key = lossy_text(k.as_slice());
                s.append(key.as_str());
                s.append("\"");
                s
            },
            PdfError::Load(e) => lopdf_message(e),
            PdfError::Save(e) => lopdf_message(e),
        }
    }
}

impl Error {
    /// What went wrong, in words a user can act on.
    pub fn message(&self) -> (r: String)
        ensures
            self is Encrypted ==> r@
                == "this PDF is encrypted; open it in a viewer and save an unencrypted copy first"@,
            self is NoCatalog ==> r@ == "the PDF has no document catalog"@,
            self is NoForm ==> r@ == "the PDF has no AcroForm dictionary"@,
            self matches Error::UnknownField(id) ==> r@ == "no field with id "@ + id@
                + " in this PDF"@,
            self matches Error::NotResettable { name, reason } ==> r@ == name@
                + " cannot be reset: "@ + reason@,
            self is OriginalNotPreserved ==> r@
                == "refusing to write: the update would not have preserved the original bytes"@,
            self matches Error::Pdf(e) ==> r@.len() >= 11 && r@.subrange(0, 11) == "PDF error: "@,
            self matches Error::Pdf(e) ==> (!(e is Load || e is Save) ==> r@ == "PDF error: "@
                + fault_text(e@)),
    {
        match self {
            Error::Encrypted => String::from_str(
                "this PDF is encrypted; open it in a viewer and save an unencrypted copy first",
            ),
            Error::NoCatalog => String::from_str("the PDF has no document catalog"),
            Error::NoForm => String::from_str("the PDF has no AcroForm dictionary"),
            Error::UnknownField(id) => {
                let mut s = String::from_str("no field with id ");
                s.append(id.as_str());
                s.append(" in this PDF");
                s
            },
            Error::NotResettable { name, reason } => {
                let mut s = name.clone();
                s.append(" cannot be reset: ");
                s.append(reason.as_str());
                s
            },
            Error::OriginalNotPreserved => String::from_str(
                "refusing to write: the update would not have preserved the original bytes",
            ),
            Error::Pdf(e) => {
                let mut s = String::from_str("PDF error: ");
                let inner = e.message();
                s.append(inner.as_str());
                proof {
                    reveal_strlit("PDF error: ");
                    assert(s@.subrange(0, 11) =~= "PDF error: "@);
                }
                s
            },
        }
    }
}

} // verus!
