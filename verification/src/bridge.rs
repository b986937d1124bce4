//! The calls into lopdf and into std that vstd gives no contract, each behind
//! a contract that states what the outside source or documentation shows of
//! it. Nothing here is proved: these are the trusted items.

use vstd::prelude::*;
use lopdf::Error as LopdfError;
use lopdf::{Object, StringFormat};
use crate::document::{dicts_unique, objects_view, DocView, PdfDocument};
use crate::object::{Obj, ObjectId, PdfDict, PdfObject, PdfStream};

verus! {

/// lopdf's error type, carried through as it is.
#[verifier::external_type_specification]
#[verifier::external_body]
pub struct ExLopdfError(LopdfError);

/// lopdf's object, met only while converting to and from plain values.
#[verifier::external_type_specification]
#[verifier::external_body]
pub struct ExLopdfObject(Object);

/// lopdf's string format, met only while converting.
#[verifier::external_type_specification]
#[verifier::external_body]
pub struct ExLopdfStringFormat(StringFormat);

/// lopdf's dictionary, met only while converting.
#[verifier::external_type_specification]
#[verifier::external_body]
pub struct ExLopdfDictionary(lopdf::Dictionary);

/// lopdf's stream, met only while converting.
#[verifier::external_type_specification]
#[verifier::external_body]
pub struct ExLopdfStream(lopdf::Stream);

/// What `lopdf::decode_text_string` makes of a PDF text string's bytes
/// (PDF 32000-1, 7.9.2.2): UTF-16BE after its byte order mark, UTF-8 after
/// its byte order mark, PDFDocEncoding otherwise; `None` where the bytes do
/// not decode.
pub uninterp spec fn text_string(bytes: Seq<u8>) -> Option<Seq<char>>;

/// What `String::from_utf8_lossy` makes of some bytes.
pub uninterp spec fn utf8_lossy(bytes: Seq<u8>) -> Seq<char>;

/// Calls `lopdf::decode_text_string` on a string object holding `bytes`.
/// lopdf's function reads only the string's bytes (not whether it was
/// written in hexadecimal), so the result is named as a function of them.
#[verifier::external_body]
pub(crate) fn decode_text(bytes: &[u8]) -> (r: Option<String>)
    ensures
        match r {
            Some(s) => text_string(bytes@) == Some(s@),
            None => text_string(bytes@) is None,
        },
{
    let object = Object::String(bytes.to_vec(), StringFormat::Literal);
    lopdf::decode_text_string(&object).ok()
}

/// Calls `String::from_utf8_lossy`. Its documentation: valid UTF-8 comes back
/// as the characters it encodes; only invalid sequences are replaced.
#[verifier::external_body]
pub(crate) fn lossy_text(bytes: &[u8]) -> (r: String)
    ensures
        r@ == utf8_lossy(bytes@),
        vstd::utf8::valid_utf8(bytes@) ==> r@ == vstd::utf8::decode_utf8(bytes@),
{
    String::from_utf8_lossy(bytes).into_owned()
}

/// What `lopdf::Document::load_mem` reads out of a file's bytes: its
/// objects, its trailer, its pages in order (`Document::get_pages`) and
/// whether it decrypted them, as plain values. `None` where lopdf refuses the
/// bytes. lopdf is built here without its `rayon` feature, so its reader
/// walks the cross-reference entries one after another, in the order of
/// their numbers, and an object that two object streams hold is always taken
/// from the same one: what it reads is a function of the bytes alone.
pub uninterp spec fn parsed_document(bytes: Seq<u8>) -> Option<DocView>;

/// Calls `lopdf::Document::load_mem` and hands back the objects, the trailer
/// and the pages of what it read, converted one for one into plain values.
/// lopdf holds a dictionary as an `IndexMap` from keys to objects, so no two
/// entries of one share a key.
#[verifier::external_body]
pub(crate) fn load_document(bytes: &[u8]) -> (r: Result<PdfDocument, LopdfError>)
    ensures
        match r {
            Ok(d) => parsed_document(bytes@) == Some(d@) && dicts_unique(d@.objects),
            Err(_) => parsed_document(bytes@) is None,
        },
{
    let doc = lopdf::Document::load_mem(bytes)?;
    Ok(PdfDocument {
        objects: doc.objects.iter().map(|(id, object)| (*id, object_from_lopdf(object))).collect(),
        trailer: dict_from_lopdf(&doc.trailer),
        pages: doc.get_pages().into_values().collect(),
        was_encrypted: doc.was_encrypted(),
    })
}

/// What lopdf writes for an incremental update of the file `previous` whose
/// new revision holds the objects `changed` (`Document::load_mem`,
/// `IncrementalDocument::create_from`, then `save_to` into memory), or
/// `None` where it refuses. For a file lopdf did not have to decrypt, this
/// depends on the two arguments alone: the previous bytes, then the new
/// objects in order of their numbers, a cross-reference section and a
/// trailer.
pub uninterp spec fn saved_update(previous: Seq<u8>, changed: Seq<(ObjectId, Obj)>) -> Option<Seq<u8>>;

/// Calls `lopdf::IncrementalDocument::save_to` on an update of the file
/// `previous` (read again with `Document::load_mem`, then
/// `IncrementalDocument::create_from`) whose new revision holds exactly the
/// objects `changed`. lopdf writes the previous revision's bytes first, as
/// they are, and appends the new revision after them. Where the file was
/// encrypted, lopdf encrypts the appended objects again, with a random
/// initialisation vector for AES, so for such a file the bytes appended are
/// not named.
#[verifier::external_body]
pub(crate) fn save_update(previous: &[u8], changed: &Vec<(ObjectId, PdfObject)>) -> (r: Result<
    Vec<u8>,
    LopdfError,
>)
    ensures
        r matches Ok(out) ==> previous@.len() <= out@.len() && out@.subrange(
            0,
            previous@.len() as int,
        ) == previous@,
        parsed_document(previous@) is None ==> r is Err,
        parsed_document(previous@) matches Some(d) && !d.was_encrypted ==> match r {
            Ok(out) => saved_update(previous@, objects_view(changed@)) == Some(out@),
            Err(_) => saved_update(previous@, objects_view(changed@)) is None,
        },
{
    let doc = lopdf::Document::load_mem(previous)?;
    let mut update = lopdf::IncrementalDocument::create_from(previous.to_vec(), doc);
    for (id, object) in changed {
        update.new_document.objects.insert(*id, object_to_lopdf(object));
    }
    let mut out = Vec::new();
    update.save_to(&mut out)?;
    Ok(out)
}

/// The message lopdf's `Display` gives an error.
#[verifier::external_body]
pub(crate) fn lopdf_message(error: &LopdfError) -> String {
    error.to_string()
}

/// Converts a lopdf object into the plain value it holds, one variant for
/// one; a real number becomes the text Rust prints for it.
#[verifier::external_body]
fn object_from_lopdf(object: &Object) -> PdfObject {
    match object {
        Object::Null => PdfObject::Null,
        Object::Boolean(b) => PdfObject::Boolean(*b),
        Object::Integer(n) => PdfObject::Integer(*n),
        Object::Real(x) => PdfObject::Real(x.to_string()),
        Object::Name(n) => PdfObject::Name(n.clone()),
        Object::String(s, format) => PdfObject::Str(s.clone(), is_hexadecimal(format)),
        Object::Array(v) => PdfObject::Array(v.iter().map(object_from_lopdf).collect()),
        Object::Dictionary(d) => PdfObject::Dictionary(dict_from_lopdf(d)),
        Object::Stream(s) => PdfObject::Stream(stream_from_lopdf(s)),
        Object::Reference(id) => PdfObject::Reference(*id),
    }
}

/// Whether a lopdf string is written in hexadecimal.
#[verifier::external_body]
fn is_hexadecimal(format: &StringFormat) -> bool {
    match format {
        StringFormat::Literal => false,
        StringFormat::Hexadecimal => true,
    }
}

/// The lopdf string format a flag stands for.
#[verifier::external_body]
fn string_format(hexadecimal: bool) -> StringFormat {
    match hexadecimal {
        false => StringFormat::Literal,
        true => StringFormat::Hexadecimal,
    }
}

/// Converts a lopdf dictionary into its entries, in order.
#[verifier::external_body]
fn dict_from_lopdf(dict: &lopdf::Dictionary) -> PdfDict {
    PdfDict { entries: dict.iter().map(|(k, v)| (k.clone(), object_from_lopdf(v))).collect() }
}

/// Converts a lopdf stream, field for field.
#[verifier::external_body]
fn stream_from_lopdf(stream: &lopdf::Stream) -> PdfStream {
    PdfStream {
        dict: dict_from_lopdf(&stream.dict),
        content: stream.content.clone(),
        allows_compression: stream.allows_compression,
        start_position: stream.start_position,
    }
}

/// Converts a plain value back into the lopdf object it stands for; a real
/// number is read back from its text.
#[verifier::external_body]
fn object_to_lopdf(object: &PdfObject) -> Object {
    match object {
        PdfObject::Null => Object::Null,
        PdfObject::Boolean(b) => Object::Boolean(*b),
        PdfObject::Integer(n) => Object::Integer(*n),
        PdfObject::Real(t) => Object::Real(t.parse().unwrap_or_default()),
        PdfObject::Name(n) => Object::Name(n.clone()),
        PdfObject::Str(s, hex) => Object::String(s.clone(), string_format(*hex)),
        PdfObject::Array(v) => Object::Array(v.iter().map(object_to_lopdf).collect()),
        PdfObject::Dictionary(d) => Object::Dictionary(dict_to_lopdf(d)),
        PdfObject::Stream(s) => Object::Stream(stream_to_lopdf(s)),
        PdfObject::Reference(id) => Object::Reference(*id),
    }
}

/// Converts entries back into a lopdf dictionary, in order.
#[verifier::external_body]
fn dict_to_lopdf(dict: &PdfDict) -> lopdf::Dictionary {
    dict.entries.iter().map(|(k, v)| (k.clone(), object_to_lopdf(v))).collect()
}

/// Converts a stream back, field for field.
#[verifier::external_body]
fn stream_to_lopdf(stream: &PdfStream) -> lopdf::Stream {
    lopdf::Stream {
        dict: dict_to_lopdf(&stream.dict),
        content: stream.content.clone(),
        allows_compression: stream.allows_compression,
        start_position: stream.start_position,
    }
}

} // verus!
