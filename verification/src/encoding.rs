//! How a note is written in the protobuf wire format, and the laws that
//! reading what is written gives the note back.
use vstd::prelude::*;
use vstd::string::StringSliceAdditionalSpecFns;
use vstd::utf8::{encode_utf8, encode_utf8_decode_utf8, encode_utf8_valid_utf8};

use crate::decode::{gunzip_outcome, note_decoded, note_of_document, v2_note, RECURSION_LIMIT};
use crate::hex::{
    hex_decode_panics, hex_encoded, hex_encoded_lower, lemma_hex_decode_encoded, lemma_hex_decode_lower_encoded,
};
use crate::note::{
    document_v1_merged, document_v2_merged, empty_document_v1_model, empty_document_v2_model,
    empty_note_model, empty_note_object_model, note_field, note_merged, note_object_field,
    note_object_merged, DocumentV1Model, DocumentV2Model, NoteModel, NoteObjectModel,
    attachment_info_merged, attribute_run_merged, checklist_merged, color_merged, empty_attachment_info_model,
    empty_attribute_run_model, empty_checklist_model, empty_color_model, empty_font_model,
    empty_paragraph_style_model, font_merged, paragraph_style_merged, AttachmentInfoModel,
    AttributeRunModel, ChecklistModel, ColorModel, FontModel, ParagraphStyleModel,
};
use crate::proto::{
    bytes_field, delimited, field_key, fixed32_field, int32_field, lemma_delimited_round_trip,
    lemma_one_byte_key, lemma_varint_encoding_len, lemma_varint_round_trip, string_field, unknown_field,
    varint_encoding,
};

verus! {

/// The one-byte key of field `tag` (below 16) with wire type `wire`.
pub open spec fn key_byte(tag: nat, wire: nat) -> Seq<u8> {
    seq![(tag * 8 + wire) as u8]
}

/// An `int32` field: negative values are written as ten-byte varints of
/// their 64-bit two's complement.
pub open spec fn int32_encoding(tag: nat, v: i32) -> Seq<u8> {
    key_byte(tag, 0) + varint_encoding(((v as i64) as u64) as nat)
}

/// A `bytes` field.
pub open spec fn bytes_encoding(tag: nat, b: Seq<u8>) -> Seq<u8> {
    key_byte(tag, 2) + delimited(b)
}

/// A `string` field: its UTF-8 bytes.
pub open spec fn string_encoding(tag: nat, s: Seq<char>) -> Seq<u8> {
    bytes_encoding(tag, encode_utf8(s))
}

/// The four little-endian bytes of `bits`.
pub open spec fn le_bytes(bits: u32) -> Seq<u8> {
    seq![(bits % 256) as u8, (bits / 256 % 256) as u8, (bits / 65536 % 256) as u8, (bits / 16777216) as u8]
}

/// A `float` field, given the bits of its value.
pub open spec fn fixed32_encoding(tag: nat, bits: u32) -> Seq<u8> {
    key_byte(tag, 5) + le_bytes(bits)
}

/// An optional `int32` field: nothing when absent.
pub open spec fn opt_int32(tag: nat, o: Option<i32>) -> Seq<u8> {
    match o {
        Some(v) => int32_encoding(tag, v),
        None => Seq::empty(),
    }
}

/// An optional `bytes` field.
pub open spec fn opt_bytes(tag: nat, o: Option<Seq<u8>>) -> Seq<u8> {
    match o {
        Some(b) => bytes_encoding(tag, b),
        None => Seq::empty(),
    }
}

/// An optional `string` field.
pub open spec fn opt_string(tag: nat, o: Option<Seq<char>>) -> Seq<u8> {
    match o {
        Some(s) => string_encoding(tag, s),
        None => Seq::empty(),
    }
}

/// An optional `float` field, given its bits.
pub open spec fn opt_fixed32(tag: nat, o: Option<u32>) -> Seq<u8> {
    match o {
        Some(b) => fixed32_encoding(tag, b),
        None => Seq::empty(),
    }
}

/// An `int32` field reads back, whatever follows it.
pub proof fn lemma_int32_encoding(tag: nat, v: i32, tail: Seq<u8>)
    requires
        1 <= tag < 16,
    ensures
        ({
            let b = int32_encoding(tag, v) + tail;
            &&& field_key(b) == Some((tag as u32, 0u8, 1nat))
            &&& int32_field(0, b.skip(1)) matches Some((w, m)) && w == v && b.skip(1).skip(m as int) == tail
        }),
{
    let u = ((v as i64) as u64) as nat;
    let e = varint_encoding(u);
    let b = int32_encoding(tag, v) + tail;
    lemma_one_byte_key((tag * 8) as u8, e + tail);
    assert(b =~= seq![(tag * 8) as u8] + (e + tail));
    assert(b.skip(1) =~= e + tail);
    lemma_varint_round_trip(u, tail);
    let w: u64 = (v as i64) as u64;
    assert((w as i32) == v) by (bit_vector)
        requires
            w == ((v as i64) as u64),
    ;
    assert((u as u64) == w);
    assert(b.skip(1).skip(e.len() as int) =~= tail);
}

/// A `bytes` field reads back as its payload, whatever follows it.
pub proof fn lemma_bytes_encoding(tag: nat, p: Seq<u8>, tail: Seq<u8>)
    requires
        1 <= tag < 16,
        p.len() <= u64::MAX,
    ensures
        ({
            let b = bytes_encoding(tag, p) + tail;
            &&& field_key(b) == Some((tag as u32, 2u8, 1nat))
            &&& bytes_field(2, b.skip(1)) matches Some((q, m)) && q == p && b.skip(1).skip(m as int) == tail
        }),
{
    let b = bytes_encoding(tag, p) + tail;
    lemma_one_byte_key((tag * 8 + 2) as u8, delimited(p) + tail);
    assert(b =~= seq![(tag * 8 + 2) as u8] + (delimited(p) + tail));
    assert(b.skip(1) =~= delimited(p) + tail);
    lemma_delimited_round_trip(p, tail);
    assert(b.skip(1).skip(delimited(p).len() as int) =~= tail);
}

/// A `string` field reads back, whatever follows it.
pub proof fn lemma_string_encoding(tag: nat, s: Seq<char>, tail: Seq<u8>)
    requires
        1 <= tag < 16,
        encode_utf8(s).len() <= u64::MAX,
    ensures
        ({
            let b = string_encoding(tag, s) + tail;
            &&& field_key(b) == Some((tag as u32, 2u8, 1nat))
            &&& string_field(2, b.skip(1)) matches Some((t, m)) && t == s && b.skip(1).skip(m as int) == tail
        }),
{
    lemma_bytes_encoding(tag, encode_utf8(s), tail);
    encode_utf8_valid_utf8(s);
    encode_utf8_decode_utf8(s);
}

/// A `float` field reads back as its bits, whatever follows it.
pub proof fn lemma_fixed32_encoding(tag: nat, bits: u32, tail: Seq<u8>)
    requires
        1 <= tag < 16,
    ensures
        ({
            let b = fixed32_encoding(tag, bits) + tail;
            &&& field_key(b) == Some((tag as u32, 5u8, 1nat))
            &&& fixed32_field(5, b.skip(1)) matches Some((w, m)) && w == bits && b.skip(1).skip(m as int) == tail
        }),
{
    let b = fixed32_encoding(tag, bits) + tail;
    lemma_one_byte_key((tag * 8 + 5) as u8, le_bytes(bits) + tail);
    assert(b =~= seq![(tag * 8 + 5) as u8] + (le_bytes(bits) + tail));
    assert(b.skip(1) =~= le_bytes(bits) + tail);
    let r = b.skip(1);
    assert(r[0] == (bits % 256) as u8);
    assert(r[1] == (bits / 256 % 256) as u8);
    assert(r[2] == (bits / 65536 % 256) as u8);
    assert(r[3] == (bits / 16777216) as u8);
    assert((bits % 256) + 256 * (bits / 256 % 256) + 65536 * (bits / 65536 % 256) + 16777216 * (bits / 16777216)
        == bits) by (nonlinear_arith);
    assert(b.skip(1).skip(4) =~= tail);
}

/// An optional embedded message, given its encoded fields.
pub open spec fn opt_message(tag: nat, o: Option<Seq<u8>>) -> Seq<u8> {
    match o {
        Some(p) => bytes_encoding(tag, p),
        None => Seq::empty(),
    }
}

/// A checklist as written: its fields in tag order, absent ones left out.
pub open spec fn checklist_encoding(c: ChecklistModel) -> Seq<u8> {
    opt_bytes(1, c.uuid) + opt_int32(2, c.done)
}

/// Law: a written checklist reads back as itself.
pub proof fn lemma_checklist_round_trip(c: ChecklistModel, ctx: nat)
    requires
        checklist_encoding(c).len() <= u64::MAX,
    ensures
        checklist_merged(empty_checklist_model(), checklist_encoding(c), ctx) == Some(c),
{
    let e = Seq::<u8>::empty();
    let b2 = opt_int32(2, c.done);
    let a1 = ChecklistModel { uuid: c.uuid, done: None };
    match c.uuid {
        Some(u) => {
            lemma_bytes_encoding(1, u, b2);
        },
        None => {
            assert(checklist_encoding(c) =~= b2);
        },
    }
    assert(checklist_merged(empty_checklist_model(), checklist_encoding(c), ctx) == checklist_merged(a1, b2, ctx));
    match c.done {
        Some(d) => {
            lemma_int32_encoding(2, d, e);
            assert(b2 =~= int32_encoding(2, d) + e);
            assert(checklist_merged(c, e, ctx) == Some(c));
        },
        None => {},
    }
}

/// A paragraph style as written: its fields in tag order, absent ones left out.
pub open spec fn paragraph_style_encoding(m: ParagraphStyleModel) -> Seq<u8>

{
    opt_int32(1, m.style_type) + opt_int32(2, m.alignment) + opt_int32(4, m.indent_amount) + opt_message((5) as nat, match m.checklist { Some(x) => Some(checklist_encoding(x)), None => None }) + opt_int32(8, m.blockquote)
}

/// Law: a written paragraph style reads back as itself.
#[verifier::spinoff_prover]
#[verifier::rlimit(100)]
pub proof fn lemma_paragraph_style_round_trip(m: ParagraphStyleModel, ctx: nat)
    requires
        ctx >= 1,
        paragraph_style_encoding(m).len() <= u64::MAX,
    ensures
        paragraph_style_merged(empty_paragraph_style_model(), paragraph_style_encoding(m), ctx) == Some(m),

{
    let e = Seq::<u8>::empty();
    let s5 = opt_int32(8, m.blockquote) + e;
    let s4 = opt_message((5) as nat, match m.checklist { Some(x) => Some(checklist_encoding(x)), None => None }) + s5;
    let s3 = opt_int32(4, m.indent_amount) + s4;
    let s2 = opt_int32(2, m.alignment) + s3;
    let s1 = opt_int32(1, m.style_type) + s2;
    assert(paragraph_style_encoding(m) =~= s1);
    let a0 = empty_paragraph_style_model();
    let a1 = ParagraphStyleModel { style_type: m.style_type, ..a0 };
    let a2 = ParagraphStyleModel { alignment: m.alignment, ..a1 };
    let a3 = ParagraphStyleModel { indent_amount: m.indent_amount, ..a2 };
    let a4 = ParagraphStyleModel { checklist: m.checklist, ..a3 };
    let a5 = ParagraphStyleModel { blockquote: m.blockquote, ..a4 };
    assert(paragraph_style_merged(a0, s1, ctx) == paragraph_style_merged(a1, s2, ctx)) by {
    match m.style_type {
        Some(v) => { lemma_int32_encoding(1, v, s2); },
        None => { assert(s1 =~= s2); },
    }
    }
    assert(paragraph_style_merged(a1, s2, ctx) == paragraph_style_merged(a2, s3, ctx)) by {
    match m.alignment {
        Some(v) => { lemma_int32_encoding(2, v, s3); },
        None => { assert(s2 =~= s3); },
    }
    }
    assert(paragraph_style_merged(a2, s3, ctx) == paragraph_style_merged(a3, s4, ctx)) by {
    match m.indent_amount {
        Some(v) => { lemma_int32_encoding(4, v, s4); },
        None => { assert(s3 =~= s4); },
    }
    }
    assert(paragraph_style_merged(a3, s4, ctx) == paragraph_style_merged(a4, s5, ctx)) by {
    match m.checklist {
        Some(v) => {
            lemma_bytes_encoding(5, checklist_encoding(v), s5);
            lemma_checklist_round_trip(v, (ctx - 1) as nat);
            assert(opt_message((5) as nat, Some(checklist_encoding(v))) == bytes_encoding(5, checklist_encoding(v)));
        },
        None => { assert(s4 =~= s5); },
    }
    }
    assert(paragraph_style_merged(a4, s5, ctx) == paragraph_style_merged(a5, e, ctx)) by {
    match m.blockquote {
        Some(v) => { lemma_int32_encoding(8, v, e); },
        None => { assert(s5 =~= e); },
    }
    }
    assert(a5 == m);
    assert(paragraph_style_merged(m, e, ctx) == Some(m));
}

/// A font as written: its fields in tag order, absent ones left out.
pub open spec fn font_encoding(m: FontModel) -> Seq<u8>

{
    opt_string(1, m.font_name) + opt_fixed32(2, m.point_size) + opt_int32(3, m.font_hints)
}

/// Law: a written font reads back as itself.
#[verifier::spinoff_prover]
#[verifier::rlimit(100)]
pub proof fn lemma_font_round_trip(m: FontModel, ctx: nat)
    requires
        font_encoding(m).len() <= u64::MAX,
    ensures
        font_merged(empty_font_model(), font_encoding(m), ctx) == Some(m),

{
    let e = Seq::<u8>::empty();
    let s3 = opt_int32(3, m.font_hints) + e;
    let s2 = opt_fixed32(2, m.point_size) + s3;
    let s1 = opt_string(1, m.font_name) + s2;
    assert(font_encoding(m) =~= s1);
    let a0 = empty_font_model();
    let a1 = FontModel { font_name: m.font_name, ..a0 };
    let a2 = FontModel { point_size: m.point_size, ..a1 };
    let a3 = FontModel { font_hints: m.font_hints, ..a2 };
    assert(font_merged(a0, s1, ctx) == font_merged(a1, s2, ctx)) by {
    match m.font_name {
        Some(v) => { lemma_string_encoding(1, v, s2); },
        None => { assert(s1 =~= s2); },
    }
    }
    assert(font_merged(a1, s2, ctx) == font_merged(a2, s3, ctx)) by {
    match m.point_size {
        Some(v) => { lemma_fixed32_encoding(2, v, s3); },
        None => { assert(s2 =~= s3); },
    }
    }
    assert(font_merged(a2, s3, ctx) == font_merged(a3, e, ctx)) by {
    match m.font_hints {
        Some(v) => { lemma_int32_encoding(3, v, e); },
        None => { assert(s3 =~= e); },
    }
    }
    assert(a3 == m);
    assert(font_merged(m, e, ctx) == Some(m));
}

/// A color as written: its fields in tag order, absent ones left out.
pub open spec fn color_encoding(m: ColorModel) -> Seq<u8>

{
    opt_fixed32(1, m.red) + opt_fixed32(2, m.green) + opt_fixed32(3, m.blue) + opt_fixed32(4, m.alpha)
}

/// Law: a written color reads back as itself.
#[verifier::spinoff_prover]
#[verifier::rlimit(100)]
pub proof fn lemma_color_round_trip(m: ColorModel, ctx: nat)
    requires
        color_encoding(m).len() <= u64::MAX,
    ensures
        color_merged(empty_color_model(), color_encoding(m), ctx) == Some(m),

{
    let e = Seq::<u8>::empty();
    let s4 = opt_fixed32(4, m.alpha) + e;
    let s3 = opt_fixed32(3, m.blue) + s4;
    let s2 = opt_fixed32(2, m.green) + s3;
    let s1 = opt_fixed32(1, m.red) + s2;
    assert(color_encoding(m) =~= s1);
    let a0 = empty_color_model();
    let a1 = ColorModel { red: m.red, ..a0 };
    let a2 = ColorModel { green: m.green, ..a1 };
    let a3 = ColorModel { blue: m.blue, ..a2 };
    let a4 = ColorModel { alpha: m.alpha, ..a3 };
    assert(color_merged(a0, s1, ctx) == color_merged(a1, s2, ctx)) by {
    match m.red {
        Some(v) => { lemma_fixed32_encoding(1, v, s2); },
        None => { assert(s1 =~= s2); },
    }
    }
    assert(color_merged(a1, s2, ctx) == color_merged(a2, s3, ctx)) by {
    match m.green {
        Some(v) => { lemma_fixed32_encoding(2, v, s3); },
        None => { assert(s2 =~= s3); },
    }
    }
    assert(color_merged(a2, s3, ctx) == color_merged(a3, s4, ctx)) by {
    match m.blue {
        Some(v) => { lemma_fixed32_encoding(3, v, s4); },
        None => { assert(s3 =~= s4); },
    }
    }
    assert(color_merged(a3, s4, ctx) == color_merged(a4, e, ctx)) by {
    match m.alpha {
        Some(v) => { lemma_fixed32_encoding(4, v, e); },
        None => { assert(s4 =~= e); },
    }
    }
    assert(a4 == m);
    assert(color_merged(m, e, ctx) == Some(m));
}

/// A attachment info as written: its fields in tag order, absent ones left out.
pub open spec fn attachment_info_encoding(m: AttachmentInfoModel) -> Seq<u8>

{
    opt_string(1, m.attachment_identifier) + opt_string(2, m.type_uti)
}

/// Law: a written attachment info reads back as itself.
#[verifier::spinoff_prover]
#[verifier::rlimit(100)]
pub proof fn lemma_attachment_info_round_trip(m: AttachmentInfoModel, ctx: nat)
    requires
        attachment_info_encoding(m).len() <= u64::MAX,
    ensures
        attachment_info_merged(empty_attachment_info_model(), attachment_info_encoding(m), ctx) == Some(m),

{
    let e = Seq::<u8>::empty();
    let s2 = opt_string(2, m.type_uti) + e;
    let s1 = opt_string(1, m.attachment_identifier) + s2;
    assert(attachment_info_encoding(m) =~= s1);
    let a0 = empty_attachment_info_model();
    let a1 = AttachmentInfoModel { attachment_identifier: m.attachment_identifier, ..a0 };
    let a2 = AttachmentInfoModel { type_uti: m.type_uti, ..a1 };
    assert(attachment_info_merged(a0, s1, ctx) == attachment_info_merged(a1, s2, ctx)) by {
    match m.attachment_identifier {
        Some(v) => { lemma_string_encoding(1, v, s2); },
        None => { assert(s1 =~= s2); },
    }
    }
    assert(attachment_info_merged(a1, s2, ctx) == attachment_info_merged(a2, e, ctx)) by {
    match m.type_uti {
        Some(v) => { lemma_string_encoding(2, v, e); },
        None => { assert(s2 =~= e); },
    }
    }
    assert(a2 == m);
    assert(attachment_info_merged(m, e, ctx) == Some(m));
}

/// An attribute run as written: its fields in tag order, absent ones
/// left out.
pub open spec fn attribute_run_encoding(m: AttributeRunModel) -> Seq<u8> {
    opt_int32(1, m.length) + (opt_message((2) as nat, match m.paragraph_style { Some(x) => Some(paragraph_style_encoding(x)), None => None }) + (opt_message((3) as nat, match m.font { Some(x) => Some(font_encoding(x)), None => None }) + (opt_int32(5, m.font_weight) + (opt_int32(6, m.underlined) + (opt_int32(7, m.strikethrough) + (opt_int32(8, m.superscript) + (opt_string(9, m.link) + (opt_message((10) as nat, match m.color { Some(x) => Some(color_encoding(x)), None => None }) + (opt_message((12) as nat, match m.attachment_info { Some(x) => Some(attachment_info_encoding(x)), None => None }))))))))))
}

/// `attribute_run_merged`, kept folded while a written run is read field by
/// field.
#[verifier::opaque]
spec fn run_read(acc: AttributeRunModel, buf: Seq<u8>, ctx: nat) -> Option<AttributeRunModel> {
    attribute_run_merged(acc, buf, ctx)
}

proof fn lemma_run_length_step(acc: AttributeRunModel, o: Option<i32>, tail: Seq<u8>, ctx: nat)
    requires
        acc.length is None,
        (opt_int32(1, o) + tail).len() <= u64::MAX,
    ensures
        run_read(acc, opt_int32(1, o) + tail, ctx) == run_read(AttributeRunModel { length: o, ..acc }, tail, ctx),
{
    reveal(run_read);
    match o {
        Some(v) => { lemma_int32_encoding(1, v, tail); },
        None => {
            assert(opt_int32(1, o) + tail =~= tail);
            assert(AttributeRunModel { length: o, ..acc } == acc);
        },
    }
}

proof fn lemma_run_paragraph_style_step(acc: AttributeRunModel, o: Option<ParagraphStyleModel>, tail: Seq<u8>, ctx: nat)
    requires
        acc.paragraph_style is None,
        o is Some ==> ctx >= 2,
        (opt_message((2) as nat, match o { Some(x) => Some(paragraph_style_encoding(x)), None => None }) + tail).len() <= u64::MAX,
    ensures
        run_read(acc, opt_message((2) as nat, match o { Some(x) => Some(paragraph_style_encoding(x)), None => None }) + tail, ctx) == run_read(AttributeRunModel { paragraph_style: o, ..acc }, tail, ctx),
{
    reveal(run_read);
    match o {
        Some(v) => {
            lemma_bytes_encoding(2, paragraph_style_encoding(v), tail);
            lemma_paragraph_style_round_trip(v, (ctx - 1) as nat);
        },
        None => {
            assert(opt_message((2) as nat, match o { Some(x) => Some(paragraph_style_encoding(x)), None => None }) + tail =~= tail);
            assert(AttributeRunModel { paragraph_style: o, ..acc } == acc);
        },
    }
}

proof fn lemma_run_font_step(acc: AttributeRunModel, o: Option<FontModel>, tail: Seq<u8>, ctx: nat)
    requires
        acc.font is None,
        o is Some ==> ctx >= 1,
        (opt_message((3) as nat, match o { Some(x) => Some(font_encoding(x)), None => None }) + tail).len() <= u64::MAX,
    ensures
        run_read(acc, opt_message((3) as nat, match o { Some(x) => Some(font_encoding(x)), None => None }) + tail, ctx) == run_read(AttributeRunModel { font: o, ..acc }, tail, ctx),
{
    reveal(run_read);
    match o {
        Some(v) => {
            lemma_bytes_encoding(3, font_encoding(v), tail);
            lemma_font_round_trip(v, (ctx - 1) as nat);
        },
        None => {
            assert(opt_message((3) as nat, match o { Some(x) => Some(font_encoding(x)), None => None }) + tail =~= tail);
            assert(AttributeRunModel { font: o, ..acc } == acc);
        },
    }
}

proof fn lemma_run_font_weight_step(acc: AttributeRunModel, o: Option<i32>, tail: Seq<u8>, ctx: nat)
    requires
        acc.font_weight is None,
        (opt_int32(5, o) + tail).len() <= u64::MAX,
    ensures
        run_read(acc, opt_int32(5, o) + tail, ctx) == run_read(AttributeRunModel { font_weight: o, ..acc }, tail, ctx),
{
    reveal(run_read);
    match o {
        Some(v) => { lemma_int32_encoding(5, v, tail); },
        None => {
            assert(opt_int32(5, o) + tail =~= tail);
            assert(AttributeRunModel { font_weight: o, ..acc } == acc);
        },
    }
}

proof fn lemma_run_underlined_step(acc: AttributeRunModel, o: Option<i32>, tail: Seq<u8>, ctx: nat)
    requires
        acc.underlined is None,
        (opt_int32(6, o) + tail).len() <= u64::MAX,
    ensures
        run_read(acc, opt_int32(6, o) + tail, ctx) == run_read(AttributeRunModel { underlined: o, ..acc }, tail, ctx),
{
    reveal(run_read);
    match o {
        Some(v) => { lemma_int32_encoding(6, v, tail); },
        None => {
            assert(opt_int32(6, o) + tail =~= tail);
            assert(AttributeRunModel { underlined: o, ..acc } == acc);
        },
    }
}

proof fn lemma_run_strikethrough_step(acc: AttributeRunModel, o: Option<i32>, tail: Seq<u8>, ctx: nat)
    requires
        acc.strikethrough is None,
        (opt_int32(7, o) + tail).len() <= u64::MAX,
    ensures
        run_read(acc, opt_int32(7, o) + tail, ctx) == run_read(AttributeRunModel { strikethrough: o, ..acc }, tail, ctx),
{
    reveal(run_read);
    match o {
        Some(v) => { lemma_int32_encoding(7, v, tail); },
        None => {
            assert(opt_int32(7, o) + tail =~= tail);
            assert(AttributeRunModel { strikethrough: o, ..acc } == acc);
        },
    }
}

proof fn lemma_run_superscript_step(acc: AttributeRunModel, o: Option<i32>, tail: Seq<u8>, ctx: nat)
    requires
        acc.superscript is None,
        (opt_int32(8, o) + tail).len() <= u64::MAX,
    ensures
        run_read(acc, opt_int32(8, o) + tail, ctx) == run_read(AttributeRunModel { superscript: o, ..acc }, tail, ctx),
{
    reveal(run_read);
    match o {
        Some(v) => { lemma_int32_encoding(8, v, tail); },
        None => {
            assert(opt_int32(8, o) + tail =~= tail);
            assert(AttributeRunModel { superscript: o, ..acc } == acc);
        },
    }
}

proof fn lemma_run_link_step(acc: AttributeRunModel, o: Option<Seq<char>>, tail: Seq<u8>, ctx: nat)
    requires
        acc.link is None,
        (opt_string(9, o) + tail).len() <= u64::MAX,
    ensures
        run_read(acc, opt_string(9, o) + tail, ctx) == run_read(AttributeRunModel { link: o, ..acc }, tail, ctx),
{
    reveal(run_read);
    match o {
        Some(v) => { lemma_string_encoding(9, v, tail); },
        None => {
            assert(opt_string(9, o) + tail =~= tail);
            assert(AttributeRunModel { link: o, ..acc } == acc);
        },
    }
}

proof fn lemma_run_color_step(acc: AttributeRunModel, o: Option<ColorModel>, tail: Seq<u8>, ctx: nat)
    requires
        acc.color is None,
        o is Some ==> ctx >= 1,
        (opt_message((10) as nat, match o { Some(x) => Some(color_encoding(x)), None => None }) + tail).len() <= u64::MAX,
    ensures
        run_read(acc, opt_message((10) as nat, match o { Some(x) => Some(color_encoding(x)), None => None }) + tail, ctx) == run_read(AttributeRunModel { color: o, ..acc }, tail, ctx),
{
    reveal(run_read);
    match o {
        Some(v) => {
            lemma_bytes_encoding(10, color_encoding(v), tail);
            lemma_color_round_trip(v, (ctx - 1) as nat);
        },
        None => {
            assert(opt_message((10) as nat, match o { Some(x) => Some(color_encoding(x)), None => None }) + tail =~= tail);
            assert(AttributeRunModel { color: o, ..acc } == acc);
        },
    }
}

proof fn lemma_run_attachment_info_step(acc: AttributeRunModel, o: Option<AttachmentInfoModel>, tail: Seq<u8>, ctx: nat)
    requires
        acc.attachment_info is None,
        o is Some ==> ctx >= 1,
        (opt_message((12) as nat, match o { Some(x) => Some(attachment_info_encoding(x)), None => None }) + tail).len() <= u64::MAX,
    ensures
        run_read(acc, opt_message((12) as nat, match o { Some(x) => Some(attachment_info_encoding(x)), None => None }) + tail, ctx) == run_read(AttributeRunModel { attachment_info: o, ..acc }, tail, ctx),
{
    reveal(run_read);
    match o {
        Some(v) => {
            lemma_bytes_encoding(12, attachment_info_encoding(v), tail);
            lemma_attachment_info_round_trip(v, (ctx - 1) as nat);
        },
        None => {
            assert(opt_message((12) as nat, match o { Some(x) => Some(attachment_info_encoding(x)), None => None }) + tail =~= tail);
            assert(AttributeRunModel { attachment_info: o, ..acc } == acc);
        },
    }
}

/// Law: a written attribute run reads back as itself.
#[verifier::spinoff_prover]
#[verifier::rlimit(100)]
pub proof fn lemma_attribute_run_round_trip(m: AttributeRunModel, ctx: nat)
    requires
        ctx >= 2,
        attribute_run_encoding(m).len() <= u64::MAX,
    ensures
        attribute_run_merged(empty_attribute_run_model(), attribute_run_encoding(m), ctx) == Some(m),
{
    let e = Seq::<u8>::empty();
    let s10 = opt_message((12) as nat, match m.attachment_info { Some(x) => Some(attachment_info_encoding(x)), None => None });
    assert(s10 + e =~= s10);
    let s9 = opt_message((10) as nat, match m.color { Some(x) => Some(color_encoding(x)), None => None }) + s10;
    let s8 = opt_string(9, m.link) + s9;
    let s7 = opt_int32(8, m.superscript) + s8;
    let s6 = opt_int32(7, m.strikethrough) + s7;
    let s5 = opt_int32(6, m.underlined) + s6;
    let s4 = opt_int32(5, m.font_weight) + s5;
    let s3 = opt_message((3) as nat, match m.font { Some(x) => Some(font_encoding(x)), None => None }) + s4;
    let s2 = opt_message((2) as nat, match m.paragraph_style { Some(x) => Some(paragraph_style_encoding(x)), None => None }) + s3;
    let s1 = opt_int32(1, m.length) + s2;
    assert(attribute_run_encoding(m) == s1);
    assert(s2.len() <= s1.len());
    assert(s3.len() <= s2.len());
    assert(s4.len() <= s3.len());
    assert(s5.len() <= s4.len());
    assert(s6.len() <= s5.len());
    assert(s7.len() <= s6.len());
    assert(s8.len() <= s7.len());
    assert(s9.len() <= s8.len());
    assert(s10.len() <= s9.len());
    let a0 = empty_attribute_run_model();
    let a1 = AttributeRunModel { length: m.length, ..a0 };
    let a2 = AttributeRunModel { paragraph_style: m.paragraph_style, ..a1 };
    let a3 = AttributeRunModel { font: m.font, ..a2 };
    let a4 = AttributeRunModel { font_weight: m.font_weight, ..a3 };
    let a5 = AttributeRunModel { underlined: m.underlined, ..a4 };
    let a6 = AttributeRunModel { strikethrough: m.strikethrough, ..a5 };
    let a7 = AttributeRunModel { superscript: m.superscript, ..a6 };
    let a8 = AttributeRunModel { link: m.link, ..a7 };
    let a9 = AttributeRunModel { color: m.color, ..a8 };
    let a10 = AttributeRunModel { attachment_info: m.attachment_info, ..a9 };
    lemma_run_length_step(a0, m.length, s2, ctx);
    lemma_run_paragraph_style_step(a1, m.paragraph_style, s3, ctx);
    lemma_run_font_step(a2, m.font, s4, ctx);
    lemma_run_font_weight_step(a3, m.font_weight, s5, ctx);
    lemma_run_underlined_step(a4, m.underlined, s6, ctx);
    lemma_run_strikethrough_step(a5, m.strikethrough, s7, ctx);
    lemma_run_superscript_step(a6, m.superscript, s8, ctx);
    lemma_run_link_step(a7, m.link, s9, ctx);
    lemma_run_color_step(a8, m.color, s10, ctx);
    lemma_run_attachment_info_step(a9, m.attachment_info, e, ctx);
    assert(run_read(a9, s10, ctx) == run_read(a10, e, ctx));
    assert(a10 == m);
    assert(run_read(m, e, ctx) == Some(m)) by {
        reveal(run_read);
    }
    assert(run_read(empty_attribute_run_model(), s1, ctx) == Some(m));
    reveal(run_read);
}


/// Attribute runs as written: one embedded message (field 5) per run, in
/// order.
pub open spec fn runs_encoding(runs: Seq<AttributeRunModel>) -> Seq<u8>
    decreases runs.len(),
{
    if runs.len() == 0 {
        Seq::empty()
    } else {
        bytes_encoding(5, attribute_run_encoding(runs[0])) + runs_encoding(runs.drop_first())
    }
}

/// A note as written: its text (field 2), then its attribute runs.
pub open spec fn note_encoding(n: NoteModel) -> Seq<u8> {
    opt_string(2, n.note_text) + runs_encoding(n.attribute_run)
}

/// Reading written runs appends them to the runs read so far.
proof fn lemma_runs_read(acc: NoteModel, runs: Seq<AttributeRunModel>, ctx: nat)
    requires
        ctx >= 3,
        runs_encoding(runs).len() <= u64::MAX,
    ensures
        note_merged(acc, runs_encoding(runs), ctx) == Some(
            NoteModel { note_text: acc.note_text, attribute_run: acc.attribute_run + runs },
        ),
    decreases runs.len(),
{
    if runs.len() == 0 {
        assert(acc.attribute_run + runs =~= acc.attribute_run);
    } else {
        let rest = runs_encoding(runs.drop_first());
        lemma_bytes_encoding(5, attribute_run_encoding(runs[0]), rest);
        lemma_attribute_run_round_trip(runs[0], (ctx - 1) as nat);
        let next = NoteModel { note_text: acc.note_text, attribute_run: acc.attribute_run.push(runs[0]) };
        assert(note_merged(acc, runs_encoding(runs), ctx) == note_merged(next, rest, ctx));
        lemma_runs_read(next, runs.drop_first(), ctx);
        assert(acc.attribute_run.push(runs[0]) + runs.drop_first() =~= acc.attribute_run + runs);
    }
}

/// Law: a written note reads back as itself, wherever it is nested at least
/// three levels above the recursion limit (its runs hold paragraph styles
/// that hold checklists).
pub proof fn lemma_note_round_trip(n: NoteModel, ctx: nat)
    requires
        ctx >= 3,
        note_encoding(n).len() <= u64::MAX,
    ensures
        note_merged(empty_note_model(), note_encoding(n), ctx) == Some(n),
{
    let rest = runs_encoding(n.attribute_run);
    let a1 = NoteModel { note_text: n.note_text, attribute_run: Seq::empty() };
    match n.note_text {
        Some(t) => {
            lemma_string_encoding(2, t, rest);
        },
        None => {
            assert(note_encoding(n) =~= rest);
        },
    }
    assert(note_merged(empty_note_model(), note_encoding(n), ctx) == note_merged(a1, rest, ctx));
    lemma_runs_read(a1, n.attribute_run, ctx);
    assert(Seq::<AttributeRunModel>::empty() + n.attribute_run =~= n.attribute_run);
}

/// A newer-format document with the given version that holds one note
/// object holding the note whose encoded fields are `note`.
pub open spec fn newer_document_of(version: Option<i32>, note: Seq<u8>) -> Seq<u8> {
    opt_int32(1, version) + (seq![0x12u8] + delimited(seq![0x1au8] + delimited(note)))
}

/// An older-format document with the given version holding the note whose
/// encoded fields are `note`.
pub open spec fn older_document_of(version: Option<i32>, note: Seq<u8>) -> Seq<u8> {
    opt_int32(2, version) + (seq![0x1au8] + delimited(note))
}

/// Law: the note of a newer-format document that wraps the encoded note
/// `note` is the note those bytes decode to (at the nesting depth a note
/// has in that format), whatever its version.
pub proof fn lemma_newer_document_note(version: Option<i32>, note: Seq<u8>, m: NoteModel)
    requires
        note.len() + 11 <= u64::MAX,
        note_merged(empty_note_model(), note, (RECURSION_LIMIT - 2) as nat) == Some(m),
    ensures
        note_of_document(newer_document_of(version, note)) == Ok::<NoteModel, Seq<char>>(m),
{
    let obj = seq![0x1au8] + delimited(note);
    let body = seq![0x12u8] + delimited(obj);
    let doc = newer_document_of(version, note);
    lemma_varint_encoding_len(note.len());
    let e = Seq::<u8>::empty();
    // Inside the note object: field 3 holds the note.
    lemma_one_byte_key(0x1a, delimited(note));
    assert(obj.skip(1) =~= delimited(note) + e);
    lemma_delimited_round_trip(note, e);
    assert(note_field(None, 2, obj.skip(1), 99) == Some((m, delimited(note).len())));
    let om = NoteObjectModel { unknown1: None, unknown2: None, note: Some(m) };
    assert(obj.skip(1).skip(delimited(note).len() as int) =~= e);
    assert(note_object_merged(om, e, 99) == Some(om));
    assert(note_object_merged(empty_note_object_model(), obj, 99) == Some(om));
    // The document: field 1 the version, field 2 the note object.
    let a1 = DocumentV2Model { version: version, note_object: None };
    match version {
        Some(x) => {
            lemma_int32_encoding(1, x, body);
        },
        None => {
            assert(doc =~= body);
        },
    }
    assert(document_v2_merged(empty_document_v2_model(), doc, 100) == document_v2_merged(a1, body, 100));
    lemma_one_byte_key(0x12, delimited(obj));
    assert(body.skip(1) =~= delimited(obj) + e);
    lemma_delimited_round_trip(obj, e);
    assert(note_object_field(None, 2, body.skip(1), 100) == Some((om, delimited(obj).len())));
    let dm = DocumentV2Model { version: version, note_object: Some(om) };
    assert(body.skip(1).skip(delimited(obj).len() as int) =~= e);
    assert(document_v2_merged(dm, e, 100) == Some(dm));
    assert(document_v2_merged(a1, body, 100) == Some(dm));
    assert(v2_note(doc) == Some(m));
}

/// Law: the note of an older-format document that wraps the encoded note
/// `note` is the note those bytes decode to, found by the fallback after
/// the newer format yields none, whatever its version.
pub proof fn lemma_older_document_note(version: Option<i32>, note: Seq<u8>, m: NoteModel)
    requires
        note.len() <= u64::MAX,
        note_merged(empty_note_model(), note, (RECURSION_LIMIT - 1) as nat) == Some(m),
    ensures
        note_of_document(older_document_of(version, note)) == Ok::<NoteModel, Seq<char>>(m),
{
    let body = seq![0x1au8] + delimited(note);
    let doc = older_document_of(version, note);
    let e = Seq::<u8>::empty();
    lemma_one_byte_key(0x1a, delimited(note));
    assert(body.skip(1) =~= delimited(note) + e);
    lemma_delimited_round_trip(note, e);
    assert(body.skip(1).skip(delimited(note).len() as int) =~= e);
    // The newer format finds no note object: a version (field 2 as a
    // varint) is no note object, and field 3 is unknown to it.
    match version {
        Some(x) => {
            lemma_int32_encoding(2, x, body);
            assert(note_object_field(None, 0, doc.skip(1), 100) is None);
            assert(document_v2_merged(empty_document_v2_model(), doc, 100) is None);
        },
        None => {
            assert(doc =~= body);
            reveal(unknown_field);
            assert(unknown_field(2, 3, body.skip(1), 100) == Some(delimited(note).len()));
            assert(document_v2_merged(empty_document_v2_model(), e, 100) == Some(empty_document_v2_model()));
            assert(document_v2_merged(empty_document_v2_model(), doc, 100) == Some(empty_document_v2_model()));
        },
    }
    assert(v2_note(doc) is None);
    // The older format reads field 2 as the version and field 3 as the note.
    let a1 = DocumentV1Model { version: version, note: None };
    match version {
        Some(x) => {
            lemma_int32_encoding(2, x, body);
        },
        None => {},
    }
    assert(document_v1_merged(empty_document_v1_model(), doc, 100) == document_v1_merged(a1, body, 100));
    let dm = DocumentV1Model { version: version, note: Some(m) };
    assert(document_v1_merged(dm, e, 100) == Some(dm));
    assert(document_v1_merged(a1, body, 100) == Some(dm));
}

/// Law: a written note, wrapped in a document of either format, is the
/// note found in that document.
pub proof fn lemma_note_documents(version: Option<i32>, n: NoteModel)
    requires
        note_encoding(n).len() + 11 <= u64::MAX,
    ensures
        note_of_document(newer_document_of(version, note_encoding(n))) == Ok::<NoteModel, Seq<char>>(n),
        note_of_document(older_document_of(version, note_encoding(n))) == Ok::<NoteModel, Seq<char>>(n),
{
    lemma_note_round_trip(n, (RECURSION_LIMIT - 2) as nat);
    lemma_note_round_trip(n, (RECURSION_LIMIT - 1) as nat);
    lemma_newer_document_note(version, note_encoding(n), n);
    lemma_older_document_note(version, note_encoding(n), n);
}

/// Law: `decode_note_data` gives back a written note from the hex text
/// (upper or lower case) of compressed bytes that gunzip to a document of
/// either format, with any version, wrapping the note.
pub proof fn lemma_decode_note_data_round_trip(
    hex: &str,
    compressed: Seq<u8>,
    version: Option<i32>,
    n: NoteModel,
    newer: bool,
)
    requires
        hex.spec_bytes() == hex_encoded(compressed) || hex.spec_bytes() == hex_encoded_lower(compressed),
        gunzip_outcome(compressed) == Ok::<Seq<u8>, Seq<char>>(
            if newer {
                newer_document_of(version, note_encoding(n))
            } else {
                older_document_of(version, note_encoding(n))
            },
        ),
        note_encoding(n).len() + 11 <= u64::MAX,
    ensures
        !hex_decode_panics(hex),
        note_decoded(hex) == Ok::<NoteModel, Seq<char>>(n),
{
    if hex.spec_bytes() == hex_encoded(compressed) {
        lemma_hex_decode_encoded(hex, compressed);
    } else {
        lemma_hex_decode_lower_encoded(hex, compressed);
    }
    lemma_note_documents(version, n);
}

} // verus!
