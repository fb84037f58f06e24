//! Archives as bytes: the property-list reader and writers of `plist`,
//! around the verified mapping between documents and archives.
use vstd::prelude::*;
use crate::codec::{
    DecodeError, decode_archive, encode_archive, from_document, lemma_encode_archive_plain,
    to_document,
};
use crate::document::{Document, DocumentView, plain};
use crate::model::WebArchive;

verus! {

/// The document that `plist` reads out of a byte string in any of its
/// encodings; none where the bytes are not a property list.
pub uninterp spec fn parsed_document(bytes: Seq<u8>) -> Option<DocumentView>;

/// The XML property list that `plist` writes for a document.
pub uninterp spec fn xml_of(d: DocumentView) -> Seq<u8>;

/// The binary property list that `plist` writes for a document.
pub uninterp spec fn binary_of(d: DocumentView) -> Seq<u8>;

/// Why bytes could not be read as an archive.
#[derive(Debug, Clone, Copy, PartialEq, Eq, Structural)]
pub enum ReadError {
    /// The bytes are not a property list.
    NotAPropertyList,
    /// The property list does not have the shape of an archive.
    Schema(DecodeError),
}

/// Relies on the variants of plist::Value: dictionaries (in their stored
/// order), arrays, strings and data are carried over as they are; any other
/// value is kept whole.
#[verifier::external_body]
fn document_from_value(v: plist::Value) -> Document {
    match v {
        plist::Value::Dictionary(d) => Document::Dictionary(
            d.into_iter().map(|(k, x)| (k, document_from_value(x))).collect(),
        ),
        plist::Value::Array(a) => Document::Array(a.into_iter().map(document_from_value).collect()),
        plist::Value::String(s) => Document::Text(s),
        plist::Value::Data(b) => Document::Data(b),
        other => Document::Other(other),
    }
}

/// Relies on the variants of plist::Value and on collecting a
/// plist::Dictionary from pairs: the inverse of `document_from_value`.
#[verifier::external_body]
fn value_from_document(d: Document) -> plist::Value {
    match d {
        Document::Dictionary(es) => plist::Value::Dictionary(
            es.into_iter().map(|(k, x)| (k, value_from_document(x))).collect(),
        ),
        Document::Array(items) => plist::Value::Array(items.into_iter().map(value_from_document).collect()),
        Document::Text(s) => plist::Value::String(s),
        Document::Data(b) => plist::Value::Data(b),
        Document::Other(v) => v,
    }
}

/// Relies on plist::Value::from_reader: it reads a property list of any
/// encoding, and what it reads depends on the bytes alone.
#[verifier::external_body]
fn read_document(bytes: &[u8]) -> (r: Option<Document>)
    ensures
        match r {
            Some(d) => parsed_document(bytes@) == Some(d@),
            None => parsed_document(bytes@) is None,
        },
{
    plist::Value::from_reader(std::io::Cursor::new(bytes)).ok().map(document_from_value)
}

/// Relies on plist::Value::to_writer_xml: what it writes depends on the
/// document alone, and it fails only where its destination fails (a `Vec`
/// never does) or on a UID value, which a plain document does not hold.
#[verifier::external_body]
fn write_xml(d: Document) -> (r: Option<Vec<u8>>)
    requires
        plain(d@),
    ensures
        r is Some,
        r->0@ == xml_of(d@),
{
    let mut buf: Vec<u8> = Vec::new();
    value_from_document(d).to_writer_xml(&mut buf).ok().map(|_| buf)
}

/// Relies on plist::Value::to_writer_binary: what it writes depends on the
/// document alone, and it fails only where its destination fails, which a
/// `Vec` never does.
#[verifier::external_body]
fn write_binary(d: Document) -> (r: Option<Vec<u8>>)
    requires
        plain(d@),
    ensures
        r is Some,
        r->0@ == binary_of(d@),
{
    let mut buf: Vec<u8> = Vec::new();
    value_from_document(d).to_writer_binary(&mut buf).ok().map(|_| buf)
}

/// Reads an archive from a property list in XML or binary form.
pub fn from_bytes(bytes: &[u8]) -> (r: Result<WebArchive, ReadError>)
    ensures
        match parsed_document(bytes@) {
            None => r == Err::<WebArchive, ReadError>(ReadError::NotAPropertyList),
            Some(d) => match decode_archive(d) {
                Ok(a) => r matches Ok(x) && x@ == a,
                Err(e) => r == Err::<WebArchive, ReadError>(ReadError::Schema(e)),
            },
        },
{
    match read_document(bytes) {
        None => Err(ReadError::NotAPropertyList),
        Some(d) => match from_document(&d) {
            Ok(a) => Ok(a),
            Err(e) => Err(ReadError::Schema(e)),
        },
    }
}

/// Writes an archive as an XML property list.
pub fn to_xml(archive: &WebArchive) -> (r: Vec<u8>)
    ensures
        r@ == xml_of(encode_archive(archive@)),
{
    let d = to_document(archive);
    proof {
        lemma_encode_archive_plain(archive@);
    }
    write_xml(d).unwrap()
}

/// Writes an archive as a binary property list.
pub fn to_binary(archive: &WebArchive) -> (r: Vec<u8>)
    ensures
        r@ == binary_of(encode_archive(archive@)),
{
    let d = to_document(archive);
    proof {
        lemma_encode_archive_plain(archive@);
    }
    write_binary(d).unwrap()
}

} // verus!
