use std::io::Write;

use entries::decode::{decode_note_data, note_from_document};
use entries::hex::{hex_decode, hex_slices_cleanly};
use entries::import::{render_note, NoteContent};
use entries::markdown::{
    format_run, format_run_with_context, markdown_is_defined, note_to_markdown, FONT_WEIGHT_BOLD,
    FONT_WEIGHT_BOLD_ITALIC, FONT_WEIGHT_ITALIC, STYLE_CHECKBOX, STYLE_DOTTED_LIST, STYLE_HEADING,
    STYLE_MONOSPACED, STYLE_NUMBERED_LIST, STYLE_TITLE,
};
use entries::note::{
    empty_attribute_run, empty_paragraph_style, ANAttachmentInfo, ANAttributeRun, ANChecklist, ANNote,
};
use entries::proto::{read_key, read_varint, WireKind};

// ── encoding helpers ───────────────────────────────────────────

fn varint(mut v: u64) -> Vec<u8> {
    let mut out = Vec::new();
    loop {
        let b = (v & 0x7f) as u8;
        v >>= 7;
        if v == 0 {
            out.push(b);
            return out;
        }
        out.push(b | 0x80);
    }
}

fn field_varint(tag: u64, v: u64) -> Vec<u8> {
    let mut out = varint(tag << 3);
    out.extend(varint(v));
    out
}

fn field_bytes(tag: u64, bytes: &[u8]) -> Vec<u8> {
    let mut out = varint((tag << 3) | 2);
    out.extend(varint(bytes.len() as u64));
    out.extend_from_slice(bytes);
    out
}

fn gzip(bytes: &[u8]) -> Vec<u8> {
    let mut enc = flate2::write::GzEncoder::new(Vec::new(), flate2::Compression::default());
    enc.write_all(bytes).unwrap();
    enc.finish().unwrap()
}

fn hex_upper(bytes: &[u8]) -> String {
    bytes.iter().map(|b| format!("{:02X}", b)).collect()
}

fn note_bytes(text: &str, runs: &[Vec<u8>]) -> Vec<u8> {
    let mut note = field_bytes(2, text.as_bytes());
    for r in runs {
        note.extend(field_bytes(5, r));
    }
    note
}

fn v2_document(note: &[u8]) -> Vec<u8> {
    let mut obj = field_varint(1, 7);
    obj.extend(field_bytes(3, note));
    let mut doc = field_varint(1, 1);
    doc.extend(field_bytes(2, &obj));
    doc
}

fn v1_document(note: &[u8]) -> Vec<u8> {
    let mut doc = field_varint(2, 1);
    doc.extend(field_bytes(3, note));
    doc
}

// ── note helpers ───────────────────────────────────────────────

fn run(len: i32, style: Option<i32>) -> ANAttributeRun {
    let mut r = empty_attribute_run();
    r.length = Some(len);
    if let Some(s) = style {
        let mut ps = empty_paragraph_style();
        ps.style_type = Some(s);
        r.paragraph_style = Some(ps);
    }
    r
}

fn note(text: &str, runs: Vec<ANAttributeRun>) -> ANNote {
    ANNote { note_text: Some(text.to_string()), attribute_run: runs }
}

// ── hex ────────────────────────────────────────────────────────

#[test]
fn hex_decodes_pairs_of_either_case() {
    assert_eq!(hex_decode(""), Ok(vec![]));
    assert_eq!(hex_decode("0aFF10"), Ok(vec![10, 255, 16]));
    assert_eq!(hex_decode("+f"), Ok(vec![15]));
}

#[test]
fn hex_errors() {
    assert_eq!(hex_decode("abc"), Err("Odd-length hex string".to_string()));
    assert_eq!(hex_decode("zz00"), Err("Hex decode error at 0: invalid digit found in string".to_string()));
    assert_eq!(hex_decode("00zz"), Err("Hex decode error at 2: invalid digit found in string".to_string()));
}

#[test]
fn hex_round_trip() {
    let bytes: Vec<u8> = (0..=255u8).collect();
    assert_eq!(hex_decode(&hex_upper(&bytes)), Ok(bytes.clone()));
    let lower: String = bytes.iter().map(|b| format!("{:02x}", b)).collect();
    assert_eq!(hex_decode(&lower), Ok(bytes));
}

#[test]
fn hex_slicing_through_a_character_is_detected() {
    assert!(hex_slices_cleanly("00ff"));
    assert!(hex_slices_cleanly("zz00"));
    assert!(hex_slices_cleanly("z\u{e9}"));
    assert!(!hex_slices_cleanly("z\u{e9}0"));
}

// ── protobuf pieces ───────────────────────────────────────────

#[test]
fn varints_and_keys() {
    assert_eq!(read_varint(&[0x96, 0x01], 0), Some((150, 2)));
    assert_eq!(read_varint(&[0x80], 0), None);
    assert_eq!(read_varint(&[0x05, 0xAC, 0x02], 1), Some((300, 3)));
    assert_eq!(read_key(&[0x12, 0x00], 0), Some((2, WireKind::LengthDelimited, 1)));
    assert_eq!(read_key(&[0x08], 0), Some((1, WireKind::Varint, 1)));
    assert_eq!(read_key(&[0x00], 0), None);
}

// ── decoding ──────────────────────────────────────────────────

#[test]
fn decodes_newer_document_format() {
    let doc = v2_document(&note_bytes("Hello", &[]));
    let n = decode_note_data(&hex_upper(&gzip(&doc))).unwrap();
    assert_eq!(n.note_text.as_deref(), Some("Hello"));
    assert!(n.attribute_run.is_empty());
}

#[test]
fn decodes_older_document_format() {
    let mut run = field_varint(1, 5);
    let mut style = field_varint(1, STYLE_HEADING as u64);
    style.extend(field_varint(4, 1));
    run.extend(field_bytes(2, &style));
    run.extend(field_varint(5, 1));
    run.extend(field_bytes(9, b"https://x.org"));
    let doc = v1_document(&note_bytes("World", &[run]));
    let n = decode_note_data(&hex_upper(&gzip(&doc))).unwrap();
    assert_eq!(n.note_text.as_deref(), Some("World"));
    assert_eq!(n.attribute_run.len(), 1);
    let r = &n.attribute_run[0];
    assert_eq!(r.length, Some(5));
    assert_eq!(r.font_weight, Some(1));
    assert_eq!(r.link.as_deref(), Some("https://x.org"));
    let ps = r.paragraph_style.as_ref().unwrap();
    assert_eq!(ps.style_type, Some(STYLE_HEADING));
    assert_eq!(ps.indent_amount, Some(1));
}

#[test]
fn negative_lengths_and_unknown_fields() {
    let mut run = field_varint(1, (-1i64) as u64);
    run.extend(field_varint(15, 3));
    run.extend(field_bytes(14, b"ignored"));
    let doc = v2_document(&note_bytes("Hi", &[run]));
    let n = note_from_document(&doc).unwrap();
    assert_eq!(n.attribute_run[0].length, Some(-1));
}

#[test]
fn repeated_scalar_fields_keep_the_last() {
    let mut note = field_bytes(2, b"first");
    note.extend(field_bytes(2, b"second"));
    let n = note_from_document(&v1_document(&note)).unwrap();
    assert_eq!(n.note_text.as_deref(), Some("second"));
}

#[test]
fn schema_mismatch() {
    let n = decode_note_data(&hex_upper(&gzip(&[]))).unwrap_err();
    assert_eq!(n, "Protobuf decode failed: data did not match V1 or V2 Apple Notes schema (0 bytes decompressed)");
    let bad = vec![0x0a, 0x05, 0x01];
    assert_eq!(
        note_from_document(&bad).unwrap_err(),
        "Protobuf decode failed: data did not match V1 or V2 Apple Notes schema (3 bytes decompressed)"
    );
}

#[test]
fn gunzip_failure() {
    let e = decode_note_data("0011").unwrap_err();
    assert!(e.starts_with("Gunzip failed: "), "{}", e);
}

#[test]
fn gunzip_really_decompresses() {
    // The wrapper must hand back the decompressed bytes, not its input.
    let doc = v2_document(&note_bytes("Compressed", &[]));
    let zipped = gzip(&doc);
    assert_ne!(zipped, doc);
    let n = decode_note_data(&hex_upper(&zipped)).unwrap();
    assert_eq!(n.note_text.as_deref(), Some("Compressed"));
}

#[test]
fn invalid_utf8_text_is_an_error() {
    let doc = v1_document(&field_bytes(2, &[0xff, 0xfe]));
    assert!(note_from_document(&doc).is_err());
}

// ── markdown ──────────────────────────────────────────────────

#[test]
fn plain_and_empty_notes() {
    assert_eq!(note_to_markdown(&note("  Hi  ", vec![])), "  Hi  ");
    assert_eq!(note_to_markdown(&note("", vec![run(3, None)])), "");
    assert_eq!(note_to_markdown(&ANNote { note_text: None, attribute_run: vec![] }), "");
}

#[test]
fn paragraph_styles() {
    let text = "Title\nBuy milk\nStep\nStep\ncode\nafter";
    let mut check = run(8, Some(STYLE_CHECKBOX));
    check.paragraph_style.as_mut().unwrap().checklist = Some(ANChecklist { uuid: None, done: Some(1) });
    let runs = vec![
        run(5, Some(STYLE_TITLE)),
        run(1, None),
        check,
        run(1, None),
        run(4, Some(STYLE_NUMBERED_LIST)),
        run(1, None),
        run(4, Some(STYLE_NUMBERED_LIST)),
        run(1, None),
        run(5, Some(STYLE_MONOSPACED)),
        run(5, None),
    ];
    let n = note(text, runs);
    assert!(markdown_is_defined(&n));
    assert_eq!(note_to_markdown(&n), "# Title\n- [x] Buy milk\n1. Step\n2. Step\n\n```\ncode\n```\nafter");
}

#[test]
fn inline_marks() {
    let mut bold = run(4, None);
    bold.font_weight = Some(FONT_WEIGHT_BOLD);
    assert_eq!(note_to_markdown(&note("bold", vec![bold])), "**bold**");
    let mut italic = run(4, None);
    italic.font_weight = Some(FONT_WEIGHT_ITALIC);
    assert_eq!(note_to_markdown(&note("ital", vec![italic])), "*ital*");
    let mut both = run(1, None);
    both.font_weight = Some(FONT_WEIGHT_BOLD_ITALIC);
    both.strikethrough = Some(1);
    assert_eq!(note_to_markdown(&note("t", vec![both])), "~~***t***~~");
}

#[test]
fn links() {
    let mut l = run(4, None);
    l.link = Some("https://x.org".to_string());
    assert_eq!(note_to_markdown(&note("site", vec![l])), "[site](https://x.org)");
    let mut inner = run(4, None);
    inner.link = Some("applenotes:note/1".to_string());
    assert_eq!(note_to_markdown(&note("site", vec![inner])), "site");
    let mut same = run(13, None);
    same.link = Some("https://x.org".to_string());
    assert_eq!(note_to_markdown(&note("https://x.org", vec![same])), "https://x.org");
}

#[test]
fn attachments() {
    let mut a = run(1, None);
    a.attachment_info = Some(ANAttachmentInfo { attachment_identifier: Some("id".to_string()), type_uti: None });
    a.link = Some("https://a.b/c".to_string());
    let mut b = run(1, None);
    b.attachment_info = Some(ANAttachmentInfo { attachment_identifier: None, type_uti: None });
    assert_eq!(note_to_markdown(&note("\u{fffc}\u{fffc}", vec![a, b])), "[attachment](https://a.b/c)");
}

#[test]
fn indentation_and_quotes() {
    let mut item = run(4, Some(STYLE_DOTTED_LIST));
    item.paragraph_style.as_mut().unwrap().indent_amount = Some(2);
    let n = note("x\nitem", vec![run(2, None), item]);
    assert_eq!(note_to_markdown(&n), "x\n\t\t- item");
    let mut quote = run(5, None);
    quote.paragraph_style = Some(empty_paragraph_style());
    quote.paragraph_style.as_mut().unwrap().blockquote = Some(1);
    assert_eq!(note_to_markdown(&note("quote", vec![quote])), "> quote");
}

#[test]
fn open_code_block_is_closed() {
    let n = note("x", vec![run(1, Some(STYLE_MONOSPACED))]);
    assert_eq!(note_to_markdown(&n), "```\nx```");
}

#[test]
fn overrunning_run_stops_conversion() {
    let n = note("Hi there", vec![run(3, Some(STYLE_HEADING)), run(100, None)]);
    assert_eq!(note_to_markdown(&n), "## Hi");
}

#[test]
fn undefined_conversions_are_detected() {
    // A negative length whose size the offset reaches overflows.
    let n = note("Hi", vec![run(1, None), run(-1, None)]);
    assert!(!markdown_is_defined(&n));
    // A negative length larger than the offset just stops.
    let p = note("Hi", vec![run(1, Some(STYLE_HEADING)), run(-2, None)]);
    assert!(markdown_is_defined(&p));
    assert_eq!(note_to_markdown(&p), "## H");
    // A negative length at the start just stops.
    let m = note("Hi", vec![run(-1, None)]);
    assert!(markdown_is_defined(&m));
    assert_eq!(note_to_markdown(&m), "");
    // A negative indentation at the start of a line.
    let mut neg = run(2, Some(STYLE_DOTTED_LIST));
    neg.paragraph_style.as_mut().unwrap().indent_amount = Some(-1);
    assert!(!markdown_is_defined(&note("Hi", vec![neg])));
}

#[test]
fn format_run_keeps_list_counter() {
    let r = run(4, Some(STYLE_NUMBERED_LIST));
    let mut in_code = false;
    let mut number = 0;
    let mut last = -1;
    assert_eq!(format_run("Item", &r, true, &mut in_code, &mut number, &mut last), "1. Item");
    assert_eq!(format_run("Item", &r, true, &mut in_code, &mut number, &mut last), "2. Item");
    assert_eq!((number, last), (2, 0));
    assert_eq!(format_run("tail", &r, false, &mut in_code, &mut number, &mut last), "tail");
    assert_eq!(format_run("  ", &r, true, &mut in_code, &mut number, &mut last), "  ");
    assert_eq!(number, 2);
}

#[test]
fn format_run_with_context_code_blocks() {
    let code = run(4, Some(STYLE_MONOSPACED));
    let plain = run(4, None);
    let mut in_code = false;
    let mut number = 0;
    let mut last = -1;
    assert_eq!(format_run_with_context("a=1\n", &code, true, &mut in_code, &mut number, &mut last), "\n```\na=1\n");
    assert!(in_code);
    assert_eq!(format_run_with_context("b=2\n", &code, true, &mut in_code, &mut number, &mut last), "b=2\n");
    assert_eq!(format_run_with_context("done", &plain, true, &mut in_code, &mut number, &mut last), "```\ndone");
    assert!(!in_code);
}

// ── rendering for import ──────────────────────────────────────

#[test]
fn render_outcomes() {
    let good = hex_upper(&gzip(&v2_document(&note_bytes("Hello", &[]))));
    match render_note(&good, "T") {
        Some(NoteContent::Markdown(md)) => assert_eq!(md, "Hello"),
        _ => panic!("expected Markdown"),
    }
    let blank = hex_upper(&gzip(&v2_document(&note_bytes("  \n ", &[]))));
    assert!(matches!(render_note(&blank, "T"), Some(NoteContent::Blank)));
    match render_note("abc", "My note") {
        Some(NoteContent::Undecodable(m)) => assert_eq!(m, "Failed to decode 'My note': Odd-length hex string"),
        _ => panic!("expected an error"),
    }
    assert!(render_note("z\u{e9}0", "T").is_none());
}

#[test]
fn repeated_message_fields_merge() {
    // The note field twice: the second merges into the first.
    let first = field_bytes(2, b"text");
    let second = field_bytes(5, &field_varint(1, 4));
    let mut doc = field_varint(2, 1);
    doc.extend(field_bytes(3, &first));
    doc.extend(field_bytes(3, &second));
    let n = note_from_document(&doc).unwrap();
    assert_eq!(n.note_text.as_deref(), Some("text"));
    assert_eq!(n.attribute_run.len(), 1);
    assert_eq!(n.attribute_run[0].length, Some(4));
}

#[test]
fn newer_format_skips_unknown_fields() {
    // Field 3 is unknown to the newer format and skipped there.
    let mut obj = field_bytes(3, &field_bytes(2, b"new"));
    obj.extend(field_varint(1, 1));
    let mut doc = field_bytes(2, &obj);
    doc.extend(field_bytes(3, &field_bytes(2, b"old")));
    let n = note_from_document(&doc).unwrap();
    assert_eq!(n.note_text.as_deref(), Some("new"));
}

fn nested_groups(depth: usize) -> Vec<u8> {
    let mut out = vec![123u8; depth];
    out.extend(vec![124u8; depth]);
    out
}

#[test]
fn unknown_groups_use_the_nesting_budget() {
    // A note (read with 99 levels of budget left) holding an unknown group
    // nested `depth` deep: 99 levels are skipped, 100 exhaust the budget.
    let mut ok = field_bytes(2, b"x");
    ok.extend(nested_groups(99));
    let n = note_from_document(&v1_document(&ok)).unwrap();
    assert_eq!(n.note_text.as_deref(), Some("x"));
    let mut deep = field_bytes(2, b"x");
    deep.extend(nested_groups(100));
    assert!(note_from_document(&v1_document(&deep)).is_err());
    // An end key with another tag ends no group.
    let mut bad = field_bytes(2, b"x");
    bad.extend(vec![123u8, 116u8]);
    assert!(note_from_document(&v1_document(&bad)).is_err());
}

#[test]
fn documents_with_versions_decode() {
    let note = note_bytes("Versioned", &[]);
    let mut v2 = field_varint(1, 3);
    v2.extend(field_bytes(2, &field_bytes(3, &note)));
    assert_eq!(decode_note_data(&hex_upper(&gzip(&v2))).unwrap().note_text.as_deref(), Some("Versioned"));
    let mut v1 = field_varint(2, 3);
    v1.extend(field_bytes(3, &note));
    assert_eq!(decode_note_data(&hex_upper(&gzip(&v1))).unwrap().note_text.as_deref(), Some("Versioned"));
}
