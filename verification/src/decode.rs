//! From the hexadecimal column value to a decoded note: hex, then gzip,
//! then the protobuf document in either of its two formats.
use vstd::prelude::*;

use crate::hex::{hex_decode, hex_decode_panics, hex_decoded};
use crate::note::{
    empty_document_v1, empty_document_v1_model, empty_document_v2, empty_document_v2_model,
    document_v1_merged, document_v2_merged, merge_document_v1, merge_document_v2, ANNote, NoteModel,
};
use crate::text::{chars_of, decimal, push_all, push_decimal, string_from_chars};

verus! {

/// What gunzipping `compressed` with flate2's `GzDecoder` gives: the
/// decompressed bytes, or the text of the error it reports.
pub uninterp spec fn gunzip_outcome(compressed: Seq<u8>) -> Result<Seq<u8>, Seq<char>>;

/// `flate2::read::GzDecoder` read to the end: the decompressed bytes or the
/// error's text. The result is a function of the input bytes alone; nothing
/// more is stated of it.
#[verifier::external_body]
fn gunzip(compressed: &[u8]) -> (r: Result<Vec<u8>, String>)
    ensures
        match r {
            Ok(v) => gunzip_outcome(compressed@) == Ok::<Seq<u8>, Seq<char>>(v@),
            Err(e) => gunzip_outcome(compressed@) == Err::<Seq<u8>, Seq<char>>(e@),
        },
{
    let mut decoder = flate2::read::GzDecoder::new(compressed);
    let mut out = Vec::new();
    match std::io::Read::read_to_end(&mut decoder, &mut out) {
        Ok(_) => Ok(out),
        Err(e) => Err(e.to_string()),
    }
}

/// Nesting budget of prost's decoder for a top-level message.
pub const RECURSION_LIMIT: u32 = 100;

/// The note of a document in the newer format, if the bytes decode as one
/// and it holds a note.
pub open spec fn v2_note(bytes: Seq<u8>) -> Option<NoteModel> {
    match document_v2_merged(empty_document_v2_model(), bytes, RECURSION_LIMIT as nat) {
        Some(doc) => match doc.note_object {
            Some(obj) => obj.note,
            None => None,
        },
        None => None,
    }
}

/// The note of a document in the older format, if the bytes decode as one
/// and it holds a note.
pub open spec fn v1_note(bytes: Seq<u8>) -> Option<NoteModel> {
    match document_v1_merged(empty_document_v1_model(), bytes, RECURSION_LIMIT as nat) {
        Some(doc) => doc.note,
        None => None,
    }
}

/// The error text when neither format yields a note.
pub open spec fn schema_mismatch_message(len: nat) -> Seq<char> {
    "Protobuf decode failed: data did not match V1 or V2 Apple Notes schema ("@ + decimal(len)
        + " bytes decompressed)"@
}

/// The note in decompressed document bytes: the newer format is tried
/// first, the older one second.
pub open spec fn note_of_document(bytes: Seq<u8>) -> Result<NoteModel, Seq<char>> {
    if v2_note(bytes) is Some {
        Ok(v2_note(bytes)->0)
    } else if v1_note(bytes) is Some {
        Ok(v1_note(bytes)->0)
    } else {
        Err(schema_mismatch_message(bytes.len()))
    }
}

/// What `decode_note_data` gives for the hexadecimal text `hex`.
pub open spec fn note_decoded(hex: &str) -> Result<NoteModel, Seq<char>> {
    match hex_decoded(hex) {
        Err(e) => Err(e),
        Ok(bytes) => match gunzip_outcome(bytes) {
            Err(e) => Err("Gunzip failed: "@ + e),
            Ok(plain) => note_of_document(plain),
        },
    }
}

/// Finds the note in decompressed document bytes, trying the newer
/// format before the older one.
pub fn note_from_document(bytes: &[u8]) -> (r: Result<ANNote, String>)
    ensures
        match (r, note_of_document(bytes@)) {
            (Ok(n), Ok(m)) => n.deep_view() == m,
            (Err(e), Err(m)) => e@ == m,
            _ => false,
        },
{
    if let Some(doc) = merge_document_v2(empty_document_v2(), bytes, RECURSION_LIMIT) {
        if let Some(obj) = doc.note_object {
            if let Some(note) = obj.note {
                return Ok(note);
            }
        }
    }
    if let Some(doc) = merge_document_v1(empty_document_v1(), bytes, RECURSION_LIMIT) {
        if let Some(note) = doc.note {
            return Ok(note);
        }
    }
    let mut msg = chars_of(
        "Protobuf decode failed: data did not match V1 or V2 Apple Notes schema (",
    );
    push_decimal(&mut msg, bytes.len() as u64);
    let tail = chars_of(" bytes decompressed)");
    push_all(&mut msg, &tail);
    Err(string_from_chars(&msg))
}

/// Decodes a note stored as hexadecimal text of gzip-compressed protobuf:
/// hex, then gunzip, then the document in the newer or the older format.
pub fn decode_note_data(hexdata: &str) -> (r: Result<ANNote, String>)
    requires
        !hex_decode_panics(hexdata),
    ensures
        match (r, note_decoded(hexdata)) {
            (Ok(n), Ok(m)) => n.deep_view() == m,
            (Err(e), Err(m)) => e@ == m,
            _ => false,
        },
{
    let bytes = match hex_decode(hexdata) {
        Ok(b) => b,
        Err(e) => {
            return Err(e);
        },
    };
    let decompressed = match gunzip(bytes.as_slice()) {
        Ok(v) => v,
        Err(e) => {
            let mut msg = chars_of("Gunzip failed: ");
            let detail = chars_of(e.as_str());
            push_all(&mut msg, &detail);
            return Err(string_from_chars(&msg));
        },
    };
    note_from_document(decompressed.as_slice())
}

} // verus!
