//! The Apple Notes protobuf schema and its decoding.
//!
//! Apple changed the schema across macOS versions. The older document
//! holds the note at tag 3; the newer one wraps it in a note object at tag 2
//! (which holds it at tag 3). The note message itself (text at tag 2,
//! attribute runs at tag 5) is the same in both.
use vstd::prelude::*;

use crate::proto::{
    bytes_field, field_key, int32_field, lemma_field_bounds, lemma_varint_len, read_bytes,
    read_delimited, read_float_bits, read_int32, read_key, read_string, read_unknown, string_field,
    unknown_field, fixed32_field, WireKind,
};

verus! {

/// Checklist state of a paragraph.
#[derive(Clone, Debug, PartialEq)]
pub struct ANChecklist {
    /// Identifier of the checklist item.
    pub uuid: Option<Vec<u8>>,
    /// Non-zero when the item is ticked.
    pub done: Option<i32>,
}

/// The value of a [`ANChecklist`]; text as characters, byte strings as
/// sequences.
pub struct ChecklistModel {
    pub uuid: Option<Seq<u8>>,
    pub done: Option<i32>,
}

impl DeepView for ANChecklist {
    type V = ChecklistModel;

    open spec fn deep_view(&self) -> ChecklistModel {
        ChecklistModel {
            uuid: self.uuid.deep_view(),
            done: self.done.deep_view(),
        }
    }
}

/// A `ANChecklist` with every field absent.
pub open spec fn empty_checklist_model() -> ChecklistModel {
    ChecklistModel {
        uuid: None,
        done: None,
    }
}

/// A `ANChecklist` with every field absent.
pub fn empty_checklist() -> (m: ANChecklist)
    ensures
        m.deep_view() == empty_checklist_model(),
{
    let m = ANChecklist {
        uuid: None,
        done: None,
    };
    proof {
        assert(m.deep_view() =~= empty_checklist_model());
    }
    m
}

/// The fields of a `ANChecklist` message in `buf` merged into `acc` the way
/// prost's decoder merges them (later scalars win, nested messages merge,
/// repeated fields append, unknown fields are skipped); `None` where the
/// decoder fails. `ctx` is the remaining nesting budget.
pub open spec fn checklist_merged(acc: ChecklistModel, buf: Seq<u8>, ctx: nat) -> Option<ChecklistModel>
    decreases buf.len(),
{
    if buf.len() == 0 {
        Some(acc)
    } else {
        match field_key(buf) {
            None => None,
            Some((tag, wire, n)) => {
                let rest = buf.skip(n as int);
                proof {
                    lemma_varint_len(buf);
                    lemma_field_bounds(wire, tag, rest, ctx);
                }
                if tag == 1 {
                    match bytes_field(wire, rest) {
                        Some((v, m)) => checklist_merged(ChecklistModel { uuid: Some(v), done: acc.done }, rest.skip(m as int), ctx),
                        None => None,
                    }
                } else if tag == 2 {
                    match int32_field(wire, rest) {
                        Some((v, m)) => checklist_merged(ChecklistModel { uuid: acc.uuid, done: Some(v) }, rest.skip(m as int), ctx),
                        None => None,
                    }
                } else {
                    match unknown_field(wire, tag, rest, ctx) {
                        Some(m) => checklist_merged(acc, rest.skip(m as int), ctx),
                        None => None,
                    }
                }
            },
        }
    }
}

/// Merges the fields of a `ANChecklist` message in `buf` into `acc`.
pub fn merge_checklist(init: ANChecklist, buf: &[u8], ctx: u32) -> (r: Option<ANChecklist>)
    ensures
        r.deep_view() == checklist_merged(init.deep_view(), buf@, ctx as nat),
{
    let ghost start = init.deep_view();
    let mut acc = init;
    let mut pos: usize = 0;
    assert(buf@.skip(0) =~= buf@);
    while pos < buf.len()
        invariant
            pos <= buf@.len(),
            start == init.deep_view(),
            checklist_merged(start, buf@, ctx as nat) == checklist_merged(acc.deep_view(), buf@.skip(pos as int), ctx as nat),
        decreases buf@.len() - pos,
    {
        let ghost here = buf@.skip(pos as int);
        let (tag, wire, p) = match read_key(buf, pos) {
            Some(k) => k,
            None => {
                return None;
            },
        };
        proof {
            lemma_varint_len(here);
            assert(here.skip(p - pos) =~= buf@.skip(p as int));
            lemma_field_bounds(wire@, tag, buf@.skip(p as int), ctx as nat);
        }
        if tag == 1 {
            match read_bytes(wire, buf, p) {
                Some((v, next)) => {
                    proof {
                        assert(buf@.skip(p as int).skip(next - p) =~= buf@.skip(next as int));
                        assert(v.deep_view() =~= v@);
                    }
                    acc.uuid = Some(v);
                    pos = next;
                },
                None => {
                    return None;
                },
            }
        } else if tag == 2 {
            match read_int32(wire, buf, p) {
                Some((v, next)) => {
                    proof {
                        assert(buf@.skip(p as int).skip(next - p) =~= buf@.skip(next as int));
                    }
                    acc.done = Some(v);
                    pos = next;
                },
                None => {
                    return None;
                },
            }
        } else {
            match read_unknown(wire, tag, buf, p, ctx) {
                Some(next) => {
                    proof {
                        assert(buf@.skip(p as int).skip(next - p) =~= buf@.skip(next as int));
                    }
                    pos = next;
                },
                None => {
                    return None;
                },
            }
        }
    }
    Some(acc)
}

/// A length-delimited `ANChecklist` field merged into `current` (an absent
/// one starts empty): the merged message and the bytes the field takes.
/// Each nesting level spends one unit of `ctx`.
pub open spec fn checklist_field(current: Option<ChecklistModel>, wire: u8, rest: Seq<u8>, ctx: nat) -> Option<(ChecklistModel, nat)> {
    match bytes_field(wire, rest) {
        Some((p, m)) => if ctx == 0 {
            None
        } else {
            let start = match current {
                Some(c) => c,
                None => empty_checklist_model(),
            };
            match checklist_merged(start, p, (ctx - 1) as nat) {
                Some(v) => Some((v, m)),
                None => None,
            }
        },
        None => None,
    }
}

/// Reads a `ANChecklist` field whose length prefix is at `buf[pos..]` and merges
/// it into `current`.
fn read_checklist_field(current: Option<ANChecklist>, wire: WireKind, buf: &[u8], pos: usize, ctx: u32) -> (r: Option<(ANChecklist, usize)>)
    requires
        pos <= buf@.len(),
    ensures
        match checklist_field(current.deep_view(), wire@, buf@.skip(pos as int), ctx as nat) {
            Some((v, m)) => r matches Some((x, next)) && x.deep_view() == v && next == pos + m,
            None => r is None,
        },
{
    let (from, to) = match read_delimited(wire, buf, pos) {
        Some(b) => b,
        None => {
            return None;
        },
    };
    if ctx == 0 {
        return None;
    }
    let start = match current {
        Some(c) => c,
        None => empty_checklist(),
    };
    let body = vstd::slice::slice_subrange(buf, from, to);
    match merge_checklist(start, body, ctx - 1) {
        Some(v) => Some((v, to)),
        None => None,
    }
}

/// Paragraph-level style of an attribute run.
#[derive(Clone, Debug, PartialEq)]
pub struct ANParagraphStyle {
    /// Heading, list or code style (see the style constants).
    pub style_type: Option<i32>,
    /// Text alignment.
    pub alignment: Option<i32>,
    /// Indentation level.
    pub indent_amount: Option<i32>,
    /// Checklist state, for checkbox paragraphs.
    pub checklist: Option<ANChecklist>,
    /// Non-zero inside a block quote.
    pub blockquote: Option<i32>,
}

/// The value of a [`ANParagraphStyle`]; text as characters, byte strings as
/// sequences.
pub struct ParagraphStyleModel {
    pub style_type: Option<i32>,
    pub alignment: Option<i32>,
    pub indent_amount: Option<i32>,
    pub checklist: Option<ChecklistModel>,
    pub blockquote: Option<i32>,
}

impl DeepView for ANParagraphStyle {
    type V = ParagraphStyleModel;

    open spec fn deep_view(&self) -> ParagraphStyleModel {
        ParagraphStyleModel {
            style_type: self.style_type.deep_view(),
            alignment: self.alignment.deep_view(),
            indent_amount: self.indent_amount.deep_view(),
            checklist: self.checklist.deep_view(),
            blockquote: self.blockquote.deep_view(),
        }
    }
}

/// A `ANParagraphStyle` with every field absent.
pub open spec fn empty_paragraph_style_model() -> ParagraphStyleModel {
    ParagraphStyleModel {
        style_type: None,
        alignment: None,
        indent_amount: None,
        checklist: None,
        blockquote: None,
    }
}

/// A `ANParagraphStyle` with every field absent.
pub fn empty_paragraph_style() -> (m: ANParagraphStyle)
    ensures
        m.deep_view() == empty_paragraph_style_model(),
{
    let m = ANParagraphStyle {
        style_type: None,
        alignment: None,
        indent_amount: None,
        checklist: None,
        blockquote: None,
    };
    proof {
        assert(m.deep_view() =~= empty_paragraph_style_model());
    }
    m
}

/// The fields of a `ANParagraphStyle` message in `buf` merged into `acc` the way
/// prost's decoder merges them (later scalars win, nested messages merge,
/// repeated fields append, unknown fields are skipped); `None` where the
/// decoder fails. `ctx` is the remaining nesting budget.
pub open spec fn paragraph_style_merged(acc: ParagraphStyleModel, buf: Seq<u8>, ctx: nat) -> Option<ParagraphStyleModel>
    decreases buf.len(),
{
    if buf.len() == 0 {
        Some(acc)
    } else {
        match field_key(buf) {
            None => None,
            Some((tag, wire, n)) => {
                let rest = buf.skip(n as int);
                proof {
                    lemma_varint_len(buf);
                    lemma_field_bounds(wire, tag, rest, ctx);
                }
                if tag == 1 {
                    match int32_field(wire, rest) {
                        Some((v, m)) => paragraph_style_merged(ParagraphStyleModel { style_type: Some(v), alignment: acc.alignment, indent_amount: acc.indent_amount, checklist: acc.checklist, blockquote: acc.blockquote }, rest.skip(m as int), ctx),
                        None => None,
                    }
                } else if tag == 2 {
                    match int32_field(wire, rest) {
                        Some((v, m)) => paragraph_style_merged(ParagraphStyleModel { style_type: acc.style_type, alignment: Some(v), indent_amount: acc.indent_amount, checklist: acc.checklist, blockquote: acc.blockquote }, rest.skip(m as int), ctx),
                        None => None,
                    }
                } else if tag == 4 {
                    match int32_field(wire, rest) {
                        Some((v, m)) => paragraph_style_merged(ParagraphStyleModel { style_type: acc.style_type, alignment: acc.alignment, indent_amount: Some(v), checklist: acc.checklist, blockquote: acc.blockquote }, rest.skip(m as int), ctx),
                        None => None,
                    }
                } else if tag == 5 {
                    match checklist_field(acc.checklist, wire, rest, ctx) {
                        Some((v, m)) => paragraph_style_merged(ParagraphStyleModel { style_type: acc.style_type, alignment: acc.alignment, indent_amount: acc.indent_amount, checklist: Some(v), blockquote: acc.blockquote }, rest.skip(m as int), ctx),
                        None => None,
                    }
                } else if tag == 8 {
                    match int32_field(wire, rest) {
                        Some((v, m)) => paragraph_style_merged(ParagraphStyleModel { style_type: acc.style_type, alignment: acc.alignment, indent_amount: acc.indent_amount, checklist: acc.checklist, blockquote: Some(v) }, rest.skip(m as int), ctx),
                        None => None,
                    }
                } else {
                    match unknown_field(wire, tag, rest, ctx) {
                        Some(m) => paragraph_style_merged(acc, rest.skip(m as int), ctx),
                        None => None,
                    }
                }
            },
        }
    }
}

/// Merges the fields of a `ANParagraphStyle` message in `buf` into `acc`.
#[verifier::spinoff_prover]
#[verifier::rlimit(100)]
pub fn merge_paragraph_style(init: ANParagraphStyle, buf: &[u8], ctx: u32) -> (r: Option<ANParagraphStyle>)
    ensures
        r.deep_view() == paragraph_style_merged(init.deep_view(), buf@, ctx as nat),
{
    let ghost start = init.deep_view();
    let mut acc = init;
    let mut pos: usize = 0;
    assert(buf@.skip(0) =~= buf@);
    while pos < buf.len()
        invariant
            pos <= buf@.len(),
            start == init.deep_view(),
            paragraph_style_merged(start, buf@, ctx as nat) == paragraph_style_merged(acc.deep_view(), buf@.skip(pos as int), ctx as nat),
        decreases buf@.len() - pos,
    {
        let ghost here = buf@.skip(pos as int);
        let (tag, wire, p) = match read_key(buf, pos) {
            Some(k) => k,
            None => {
                return None;
            },
        };
        proof {
            lemma_varint_len(here);
            assert(here.skip(p - pos) =~= buf@.skip(p as int));
            lemma_field_bounds(wire@, tag, buf@.skip(p as int), ctx as nat);
        }
        if tag == 1 {
            match read_int32(wire, buf, p) {
                Some((v, next)) => {
                    proof {
                        assert(buf@.skip(p as int).skip(next - p) =~= buf@.skip(next as int));
                    }
                    acc.style_type = Some(v);
                    pos = next;
                },
                None => {
                    return None;
                },
            }
        } else if tag == 2 {
            match read_int32(wire, buf, p) {
                Some((v, next)) => {
                    proof {
                        assert(buf@.skip(p as int).skip(next - p) =~= buf@.skip(next as int));
                    }
                    acc.alignment = Some(v);
                    pos = next;
                },
                None => {
                    return None;
                },
            }
        } else if tag == 4 {
            match read_int32(wire, buf, p) {
                Some((v, next)) => {
                    proof {
                        assert(buf@.skip(p as int).skip(next - p) =~= buf@.skip(next as int));
                    }
                    acc.indent_amount = Some(v);
                    pos = next;
                },
                None => {
                    return None;
                },
            }
        } else if tag == 5 {
            let ghost before = acc.deep_view();
            match read_checklist_field(acc.checklist.take(), wire, buf, p, ctx) {
                Some((v, next)) => {
                    proof {
                        assert(buf@.skip(p as int).skip(next - p) =~= buf@.skip(next as int));
                    }
                    acc.checklist = Some(v);
                    proof {
                        assert(acc.deep_view() =~= ParagraphStyleModel { style_type: before.style_type, alignment: before.alignment, indent_amount: before.indent_amount, checklist: Some(v.deep_view()), blockquote: before.blockquote });
                    }
                    pos = next;
                },
                None => {
                    return None;
                },
            }
        } else if tag == 8 {
            match read_int32(wire, buf, p) {
                Some((v, next)) => {
                    proof {
                        assert(buf@.skip(p as int).skip(next - p) =~= buf@.skip(next as int));
                    }
                    acc.blockquote = Some(v);
                    pos = next;
                },
                None => {
                    return None;
                },
            }
        } else {
            match read_unknown(wire, tag, buf, p, ctx) {
                Some(next) => {
                    proof {
                        assert(buf@.skip(p as int).skip(next - p) =~= buf@.skip(next as int));
                    }
                    pos = next;
                },
                None => {
                    return None;
                },
            }
        }
    }
    Some(acc)
}

/// A length-delimited `ANParagraphStyle` field merged into `current` (an absent
/// one starts empty): the merged message and the bytes the field takes.
/// Each nesting level spends one unit of `ctx`.
pub open spec fn paragraph_style_field(current: Option<ParagraphStyleModel>, wire: u8, rest: Seq<u8>, ctx: nat) -> Option<(ParagraphStyleModel, nat)> {
    match bytes_field(wire, rest) {
        Some((p, m)) => if ctx == 0 {
            None
        } else {
            let start = match current {
                Some(c) => c,
                None => empty_paragraph_style_model(),
            };
            match paragraph_style_merged(start, p, (ctx - 1) as nat) {
                Some(v) => Some((v, m)),
                None => None,
            }
        },
        None => None,
    }
}

/// Reads a `ANParagraphStyle` field whose length prefix is at `buf[pos..]` and merges
/// it into `current`.
fn read_paragraph_style_field(current: Option<ANParagraphStyle>, wire: WireKind, buf: &[u8], pos: usize, ctx: u32) -> (r: Option<(ANParagraphStyle, usize)>)
    requires
        pos <= buf@.len(),
    ensures
        match paragraph_style_field(current.deep_view(), wire@, buf@.skip(pos as int), ctx as nat) {
            Some((v, m)) => r matches Some((x, next)) && x.deep_view() == v && next == pos + m,
            None => r is None,
        },
{
    let (from, to) = match read_delimited(wire, buf, pos) {
        Some(b) => b,
        None => {
            return None;
        },
    };
    if ctx == 0 {
        return None;
    }
    let start = match current {
        Some(c) => c,
        None => empty_paragraph_style(),
    };
    let body = vstd::slice::slice_subrange(buf, from, to);
    match merge_paragraph_style(start, body, ctx - 1) {
        Some(v) => Some((v, to)),
        None => None,
    }
}

/// Font of an attribute run.
#[derive(Clone, Debug, PartialEq)]
pub struct ANFont {
    /// Font family name.
    pub font_name: Option<String>,
    /// Point size, as the bits of a 32-bit float.
    pub point_size: Option<u32>,
    /// Font hints.
    pub font_hints: Option<i32>,
}

/// The value of a [`ANFont`]; text as characters, byte strings as
/// sequences.
pub struct FontModel {
    pub font_name: Option<Seq<char>>,
    pub point_size: Option<u32>,
    pub font_hints: Option<i32>,
}

impl DeepView for ANFont {
    type V = FontModel;

    open spec fn deep_view(&self) -> FontModel {
        FontModel {
            font_name: self.font_name.deep_view(),
            point_size: self.point_size.deep_view(),
            font_hints: self.font_hints.deep_view(),
        }
    }
}

/// A `ANFont` with every field absent.
pub open spec fn empty_font_model() -> FontModel {
    FontModel {
        font_name: None,
        point_size: None,
        font_hints: None,
    }
}

/// A `ANFont` with every field absent.
pub fn empty_font() -> (m: ANFont)
    ensures
        m.deep_view() == empty_font_model(),
{
    let m = ANFont {
        font_name: None,
        point_size: None,
        font_hints: None,
    };
    proof {
        assert(m.deep_view() =~= empty_font_model());
    }
    m
}

/// The fields of a `ANFont` message in `buf` merged into `acc` the way
/// prost's decoder merges them (later scalars win, nested messages merge,
/// repeated fields append, unknown fields are skipped); `None` where the
/// decoder fails. `ctx` is the remaining nesting budget.
pub open spec fn font_merged(acc: FontModel, buf: Seq<u8>, ctx: nat) -> Option<FontModel>
    decreases buf.len(),
{
    if buf.len() == 0 {
        Some(acc)
    } else {
        match field_key(buf) {
            None => None,
            Some((tag, wire, n)) => {
                let rest = buf.skip(n as int);
                proof {
                    lemma_varint_len(buf);
                    lemma_field_bounds(wire, tag, rest, ctx);
                }
                if tag == 1 {
                    match string_field(wire, rest) {
                        Some((v, m)) => font_merged(FontModel { font_name: Some(v), point_size: acc.point_size, font_hints: acc.font_hints }, rest.skip(m as int), ctx),
                        None => None,
                    }
                } else if tag == 2 {
                    match fixed32_field(wire, rest) {
                        Some((v, m)) => font_merged(FontModel { font_name: acc.font_name, point_size: Some(v), font_hints: acc.font_hints }, rest.skip(m as int), ctx),
                        None => None,
                    }
                } else if tag == 3 {
                    match int32_field(wire, rest) {
                        Some((v, m)) => font_merged(FontModel { font_name: acc.font_name, point_size: acc.point_size, font_hints: Some(v) }, rest.skip(m as int), ctx),
                        None => None,
                    }
                } else {
                    match unknown_field(wire, tag, rest, ctx) {
                        Some(m) => font_merged(acc, rest.skip(m as int), ctx),
                        None => None,
                    }
                }
            },
        }
    }
}

/// Merges the fields of a `ANFont` message in `buf` into `acc`.
pub fn merge_font(init: ANFont, buf: &[u8], ctx: u32) -> (r: Option<ANFont>)
    ensures
        r.deep_view() == font_merged(init.deep_view(), buf@, ctx as nat),
{
    let ghost start = init.deep_view();
    let mut acc = init;
    let mut pos: usize = 0;
    assert(buf@.skip(0) =~= buf@);
    while pos < buf.len()
        invariant
            pos <= buf@.len(),
            start == init.deep_view(),
            font_merged(start, buf@, ctx as nat) == font_merged(acc.deep_view(), buf@.skip(pos as int), ctx as nat),
        decreases buf@.len() - pos,
    {
        let ghost here = buf@.skip(pos as int);
        let (tag, wire, p) = match read_key(buf, pos) {
            Some(k) => k,
            None => {
                return None;
            },
        };
        proof {
            lemma_varint_len(here);
            assert(here.skip(p - pos) =~= buf@.skip(p as int));
            lemma_field_bounds(wire@, tag, buf@.skip(p as int), ctx as nat);
        }
        if tag == 1 {
            match read_string(wire, buf, p) {
                Some((v, next)) => {
                    proof {
                        assert(buf@.skip(p as int).skip(next - p) =~= buf@.skip(next as int));
                    }
                    acc.font_name = Some(v);
                    pos = next;
                },
                None => {
                    return None;
                },
            }
        } else if tag == 2 {
            match read_float_bits(wire, buf, p) {
                Some((v, next)) => {
                    proof {
                        assert(buf@.skip(p as int).skip(next - p) =~= buf@.skip(next as int));
                    }
                    acc.point_size = Some(v);
                    pos = next;
                },
                None => {
                    return None;
                },
            }
        } else if tag == 3 {
            match read_int32(wire, buf, p) {
                Some((v, next)) => {
                    proof {
                        assert(buf@.skip(p as int).skip(next - p) =~= buf@.skip(next as int));
                    }
                    acc.font_hints = Some(v);
                    pos = next;
                },
                None => {
                    return None;
                },
            }
        } else {
            match read_unknown(wire, tag, buf, p, ctx) {
                Some(next) => {
                    proof {
                        assert(buf@.skip(p as int).skip(next - p) =~= buf@.skip(next as int));
                    }
                    pos = next;
                },
                None => {
                    return None;
                },
            }
        }
    }
    Some(acc)
}

/// A length-delimited `ANFont` field merged into `current` (an absent
/// one starts empty): the merged message and the bytes the field takes.
/// Each nesting level spends one unit of `ctx`.
pub open spec fn font_field(current: Option<FontModel>, wire: u8, rest: Seq<u8>, ctx: nat) -> Option<(FontModel, nat)> {
    match bytes_field(wire, rest) {
        Some((p, m)) => if ctx == 0 {
            None
        } else {
            let start = match current {
                Some(c) => c,
                None => empty_font_model(),
            };
            match font_merged(start, p, (ctx - 1) as nat) {
                Some(v) => Some((v, m)),
                None => None,
            }
        },
        None => None,
    }
}

/// Reads a `ANFont` field whose length prefix is at `buf[pos..]` and merges
/// it into `current`.
fn read_font_field(current: Option<ANFont>, wire: WireKind, buf: &[u8], pos: usize, ctx: u32) -> (r: Option<(ANFont, usize)>)
    requires
        pos <= buf@.len(),
    ensures
        match font_field(current.deep_view(), wire@, buf@.skip(pos as int), ctx as nat) {
            Some((v, m)) => r matches Some((x, next)) && x.deep_view() == v && next == pos + m,
            None => r is None,
        },
{
    let (from, to) = match read_delimited(wire, buf, pos) {
        Some(b) => b,
        None => {
            return None;
        },
    };
    if ctx == 0 {
        return None;
    }
    let start = match current {
        Some(c) => c,
        None => empty_font(),
    };
    let body = vstd::slice::slice_subrange(buf, from, to);
    match merge_font(start, body, ctx - 1) {
        Some(v) => Some((v, to)),
        None => None,
    }
}

/// Text colour of an attribute run; each channel is the bits of a 32-bit float.
#[derive(Clone, Debug, PartialEq)]
pub struct ANColor {
    /// Red channel.
    pub red: Option<u32>,
    /// Green channel.
    pub green: Option<u32>,
    /// Blue channel.
    pub blue: Option<u32>,
    /// Opacity.
    pub alpha: Option<u32>,
}

/// The value of a [`ANColor`]; text as characters, byte strings as
/// sequences.
pub struct ColorModel {
    pub red: Option<u32>,
    pub green: Option<u32>,
    pub blue: Option<u32>,
    pub alpha: Option<u32>,
}

impl DeepView for ANColor {
    type V = ColorModel;

    open spec fn deep_view(&self) -> ColorModel {
        ColorModel {
            red: self.red.deep_view(),
            green: self.green.deep_view(),
            blue: self.blue.deep_view(),
            alpha: self.alpha.deep_view(),
        }
    }
}

/// A `ANColor` with every field absent.
pub open spec fn empty_color_model() -> ColorModel {
    ColorModel {
        red: None,
        green: None,
        blue: None,
        alpha: None,
    }
}

/// A `ANColor` with every field absent.
pub fn empty_color() -> (m: ANColor)
    ensures
        m.deep_view() == empty_color_model(),
{
    let m = ANColor {
        red: None,
        green: None,
        blue: None,
        alpha: None,
    };
    proof {
        assert(m.deep_view() =~= empty_color_model());
    }
    m
}

/// The fields of a `ANColor` message in `buf` merged into `acc` the way
/// prost's decoder merges them (later scalars win, nested messages merge,
/// repeated fields append, unknown fields are skipped); `None` where the
/// decoder fails. `ctx` is the remaining nesting budget.
pub open spec fn color_merged(acc: ColorModel, buf: Seq<u8>, ctx: nat) -> Option<ColorModel>
    decreases buf.len(),
{
    if buf.len() == 0 {
        Some(acc)
    } else {
        match field_key(buf) {
            None => None,
            Some((tag, wire, n)) => {
                let rest = buf.skip(n as int);
                proof {
                    lemma_varint_len(buf);
                    lemma_field_bounds(wire, tag, rest, ctx);
                }
                if tag == 1 {
                    match fixed32_field(wire, rest) {
                        Some((v, m)) => color_merged(ColorModel { red: Some(v), green: acc.green, blue: acc.blue, alpha: acc.alpha }, rest.skip(m as int), ctx),
                        None => None,
                    }
                } else if tag == 2 {
                    match fixed32_field(wire, rest) {
                        Some((v, m)) => color_merged(ColorModel { red: acc.red, green: Some(v), blue: acc.blue, alpha: acc.alpha }, rest.skip(m as int), ctx),
                        None => None,
                    }
                } else if tag == 3 {
                    match fixed32_field(wire, rest) {
                        Some((v, m)) => color_merged(ColorModel { red: acc.red, green: acc.green, blue: Some(v), alpha: acc.alpha }, rest.skip(m as int), ctx),
                        None => None,
                    }
                } else if tag == 4 {
                    match fixed32_field(wire, rest) {
                        Some((v, m)) => color_merged(ColorModel { red: acc.red, green: acc.green, blue: acc.blue, alpha: Some(v) }, rest.skip(m as int), ctx),
                        None => None,
                    }
                } else {
                    match unknown_field(wire, tag, rest, ctx) {
                        Some(m) => color_merged(acc, rest.skip(m as int), ctx),
                        None => None,
                    }
                }
            },
        }
    }
}

/// Merges the fields of a `ANColor` message in `buf` into `acc`.
pub fn merge_color(init: ANColor, buf: &[u8], ctx: u32) -> (r: Option<ANColor>)
    ensures
        r.deep_view() == color_merged(init.deep_view(), buf@, ctx as nat),
{
    let ghost start = init.deep_view();
    let mut acc = init;
    let mut pos: usize = 0;
    assert(buf@.skip(0) =~= buf@);
    while pos < buf.len()
        invariant
            pos <= buf@.len(),
            start == init.deep_view(),
            color_merged(start, buf@, ctx as nat) == color_merged(acc.deep_view(), buf@.skip(pos as int), ctx as nat),
        decreases buf@.len() - pos,
    {
        let ghost here = buf@.skip(pos as int);
        let (tag, wire, p) = match read_key(buf, pos) {
            Some(k) => k,
            None => {
                return None;
            },
        };
        proof {
            lemma_varint_len(here);
            assert(here.skip(p - pos) =~= buf@.skip(p as int));
            lemma_field_bounds(wire@, tag, buf@.skip(p as int), ctx as nat);
        }
        if tag == 1 {
            match read_float_bits(wire, buf, p) {
                Some((v, next)) => {
                    proof {
                        assert(buf@.skip(p as int).skip(next - p) =~= buf@.skip(next as int));
                    }
                    acc.red = Some(v);
                    pos = next;
                },
                None => {
                    return None;
                },
            }
        } else if tag == 2 {
            match read_float_bits(wire, buf, p) {
                Some((v, next)) => {
                    proof {
                        assert(buf@.skip(p as int).skip(next - p) =~= buf@.skip(next as int));
                    }
                    acc.green = Some(v);
                    pos = next;
                },
                None => {
                    return None;
                },
            }
        } else if tag == 3 {
            match read_float_bits(wire, buf, p) {
                Some((v, next)) => {
                    proof {
                        assert(buf@.skip(p as int).skip(next - p) =~= buf@.skip(next as int));
                    }
                    acc.blue = Some(v);
                    pos = next;
                },
                None => {
                    return None;
                },
            }
        } else if tag == 4 {
            match read_float_bits(wire, buf, p) {
                Some((v, next)) => {
                    proof {
                        assert(buf@.skip(p as int).skip(next - p) =~= buf@.skip(next as int));
                    }
                    acc.alpha = Some(v);
                    pos = next;
                },
                None => {
                    return None;
                },
            }
        } else {
            match read_unknown(wire, tag, buf, p, ctx) {
                Some(next) => {
                    proof {
                        assert(buf@.skip(p as int).skip(next - p) =~= buf@.skip(next as int));
                    }
                    pos = next;
                },
                None => {
                    return None;
                },
            }
        }
    }
    Some(acc)
}

/// A length-delimited `ANColor` field merged into `current` (an absent
/// one starts empty): the merged message and the bytes the field takes.
/// Each nesting level spends one unit of `ctx`.
pub open spec fn color_field(current: Option<ColorModel>, wire: u8, rest: Seq<u8>, ctx: nat) -> Option<(ColorModel, nat)> {
    match bytes_field(wire, rest) {
        Some((p, m)) => if ctx == 0 {
            None
        } else {
            let start = match current {
                Some(c) => c,
                None => empty_color_model(),
            };
            match color_merged(start, p, (ctx - 1) as nat) {
                Some(v) => Some((v, m)),
                None => None,
            }
        },
        None => None,
    }
}

/// Reads a `ANColor` field whose length prefix is at `buf[pos..]` and merges
/// it into `current`.
fn read_color_field(current: Option<ANColor>, wire: WireKind, buf: &[u8], pos: usize, ctx: u32) -> (r: Option<(ANColor, usize)>)
    requires
        pos <= buf@.len(),
    ensures
        match color_field(current.deep_view(), wire@, buf@.skip(pos as int), ctx as nat) {
            Some((v, m)) => r matches Some((x, next)) && x.deep_view() == v && next == pos + m,
            None => r is None,
        },
{
    let (from, to) = match read_delimited(wire, buf, pos) {
        Some(b) => b,
        None => {
            return None;
        },
    };
    if ctx == 0 {
        return None;
    }
    let start = match current {
        Some(c) => c,
        None => empty_color(),
    };
    let body = vstd::slice::slice_subrange(buf, from, to);
    match merge_color(start, body, ctx - 1) {
        Some(v) => Some((v, to)),
        None => None,
    }
}

/// Reference to an attachment embedded in the note text.
#[derive(Clone, Debug, PartialEq)]
pub struct ANAttachmentInfo {
    /// Identifier of the attachment.
    pub attachment_identifier: Option<String>,
    /// Uniform type identifier of the attachment.
    pub type_uti: Option<String>,
}

/// The value of a [`ANAttachmentInfo`]; text as characters, byte strings as
/// sequences.
pub struct AttachmentInfoModel {
    pub attachment_identifier: Option<Seq<char>>,
    pub type_uti: Option<Seq<char>>,
}

impl DeepView for ANAttachmentInfo {
    type V = AttachmentInfoModel;

    open spec fn deep_view(&self) -> AttachmentInfoModel {
        AttachmentInfoModel {
            attachment_identifier: self.attachment_identifier.deep_view(),
            type_uti: self.type_uti.deep_view(),
        }
    }
}

/// A `ANAttachmentInfo` with every field absent.
pub open spec fn empty_attachment_info_model() -> AttachmentInfoModel {
    AttachmentInfoModel {
        attachment_identifier: None,
        type_uti: None,
    }
}

/// A `ANAttachmentInfo` with every field absent.
pub fn empty_attachment_info() -> (m: ANAttachmentInfo)
    ensures
        m.deep_view() == empty_attachment_info_model(),
{
    let m = ANAttachmentInfo {
        attachment_identifier: None,
        type_uti: None,
    };
    proof {
        assert(m.deep_view() =~= empty_attachment_info_model());
    }
    m
}

/// The fields of a `ANAttachmentInfo` message in `buf` merged into `acc` the way
/// prost's decoder merges them (later scalars win, nested messages merge,
/// repeated fields append, unknown fields are skipped); `None` where the
/// decoder fails. `ctx` is the remaining nesting budget.
pub open spec fn attachment_info_merged(acc: AttachmentInfoModel, buf: Seq<u8>, ctx: nat) -> Option<AttachmentInfoModel>
    decreases buf.len(),
{
    if buf.len() == 0 {
        Some(acc)
    } else {
        match field_key(buf) {
            None => None,
            Some((tag, wire, n)) => {
                let rest = buf.skip(n as int);
                proof {
                    lemma_varint_len(buf);
                    lemma_field_bounds(wire, tag, rest, ctx);
                }
                if tag == 1 {
                    match string_field(wire, rest) {
                        Some((v, m)) => attachment_info_merged(AttachmentInfoModel { attachment_identifier: Some(v), type_uti: acc.type_uti }, rest.skip(m as int), ctx),
                        None => None,
                    }
                } else if tag == 2 {
                    match string_field(wire, rest) {
                        Some((v, m)) => attachment_info_merged(AttachmentInfoModel { attachment_identifier: acc.attachment_identifier, type_uti: Some(v) }, rest.skip(m as int), ctx),
                        None => None,
                    }
                } else {
                    match unknown_field(wire, tag, rest, ctx) {
                        Some(m) => attachment_info_merged(acc, rest.skip(m as int), ctx),
                        None => None,
                    }
                }
            },
        }
    }
}

/// Merges the fields of a `ANAttachmentInfo` message in `buf` into `acc`.
pub fn merge_attachment_info(init: ANAttachmentInfo, buf: &[u8], ctx: u32) -> (r: Option<ANAttachmentInfo>)
    ensures
        r.deep_view() == attachment_info_merged(init.deep_view(), buf@, ctx as nat),
{
    let ghost start = init.deep_view();
    let mut acc = init;
    let mut pos: usize = 0;
    assert(buf@.skip(0) =~= buf@);
    while pos < buf.len()
        invariant
            pos <= buf@.len(),
            start == init.deep_view(),
            attachment_info_merged(start, buf@, ctx as nat) == attachment_info_merged(acc.deep_view(), buf@.skip(pos as int), ctx as nat),
        decreases buf@.len() - pos,
    {
        let ghost here = buf@.skip(pos as int);
        let (tag, wire, p) = match read_key(buf, pos) {
            Some(k) => k,
            None => {
                return None;
            },
        };
        proof {
            lemma_varint_len(here);
            assert(here.skip(p - pos) =~= buf@.skip(p as int));
            lemma_field_bounds(wire@, tag, buf@.skip(p as int), ctx as nat);
        }
        if tag == 1 {
            match read_string(wire, buf, p) {
                Some((v, next)) => {
                    proof {
                        assert(buf@.skip(p as int).skip(next - p) =~= buf@.skip(next as int));
                    }
                    acc.attachment_identifier = Some(v);
                    pos = next;
                },
                None => {
                    return None;
                },
            }
        } else if tag == 2 {
            match read_string(wire, buf, p) {
                Some((v, next)) => {
                    proof {
                        assert(buf@.skip(p as int).skip(next - p) =~= buf@.skip(next as int));
                    }
                    acc.type_uti = Some(v);
                    pos = next;
                },
                None => {
                    return None;
                },
            }
        } else {
            match read_unknown(wire, tag, buf, p, ctx) {
                Some(next) => {
                    proof {
                        assert(buf@.skip(p as int).skip(next - p) =~= buf@.skip(next as int));
                    }
                    pos = next;
                },
                None => {
                    return None;
                },
            }
        }
    }
    Some(acc)
}

/// A length-delimited `ANAttachmentInfo` field merged into `current` (an absent
/// one starts empty): the merged message and the bytes the field takes.
/// Each nesting level spends one unit of `ctx`.
pub open spec fn attachment_info_field(current: Option<AttachmentInfoModel>, wire: u8, rest: Seq<u8>, ctx: nat) -> Option<(AttachmentInfoModel, nat)> {
    match bytes_field(wire, rest) {
        Some((p, m)) => if ctx == 0 {
            None
        } else {
            let start = match current {
                Some(c) => c,
                None => empty_attachment_info_model(),
            };
            match attachment_info_merged(start, p, (ctx - 1) as nat) {
                Some(v) => Some((v, m)),
                None => None,
            }
        },
        None => None,
    }
}

/// Reads a `ANAttachmentInfo` field whose length prefix is at `buf[pos..]` and merges
/// it into `current`.
fn read_attachment_info_field(current: Option<ANAttachmentInfo>, wire: WireKind, buf: &[u8], pos: usize, ctx: u32) -> (r: Option<(ANAttachmentInfo, usize)>)
    requires
        pos <= buf@.len(),
    ensures
        match attachment_info_field(current.deep_view(), wire@, buf@.skip(pos as int), ctx as nat) {
            Some((v, m)) => r matches Some((x, next)) && x.deep_view() == v && next == pos + m,
            None => r is None,
        },
{
    let (from, to) = match read_delimited(wire, buf, pos) {
        Some(b) => b,
        None => {
            return None;
        },
    };
    if ctx == 0 {
        return None;
    }
    let start = match current {
        Some(c) => c,
        None => empty_attachment_info(),
    };
    let body = vstd::slice::slice_subrange(buf, from, to);
    match merge_attachment_info(start, body, ctx - 1) {
        Some(v) => Some((v, to)),
        None => None,
    }
}

/// A run of characters of the note text that share one set of attributes.
#[derive(Clone, Debug, PartialEq)]
pub struct ANAttributeRun {
    /// Number of characters the run covers.
    pub length: Option<i32>,
    /// Paragraph style.
    pub paragraph_style: Option<ANParagraphStyle>,
    /// Font.
    pub font: Option<ANFont>,
    /// 1 bold, 2 italic, 3 bold italic.
    pub font_weight: Option<i32>,
    /// Non-zero when underlined.
    pub underlined: Option<i32>,
    /// Non-zero when struck through.
    pub strikethrough: Option<i32>,
    /// Superscript level.
    pub superscript: Option<i32>,
    /// Link target.
    pub link: Option<String>,
    /// Text colour.
    pub color: Option<ANColor>,
    /// Attachment shown at this run.
    pub attachment_info: Option<ANAttachmentInfo>,
}

/// The value of a [`ANAttributeRun`]; text as characters, byte strings as
/// sequences.
pub struct AttributeRunModel {
    pub length: Option<i32>,
    pub paragraph_style: Option<ParagraphStyleModel>,
    pub font: Option<FontModel>,
    pub font_weight: Option<i32>,
    pub underlined: Option<i32>,
    pub strikethrough: Option<i32>,
    pub superscript: Option<i32>,
    pub link: Option<Seq<char>>,
    pub color: Option<ColorModel>,
    pub attachment_info: Option<AttachmentInfoModel>,
}

impl DeepView for ANAttributeRun {
    type V = AttributeRunModel;

    open spec fn deep_view(&self) -> AttributeRunModel {
        AttributeRunModel {
            length: self.length.deep_view(),
            paragraph_style: self.paragraph_style.deep_view(),
            font: self.font.deep_view(),
            font_weight: self.font_weight.deep_view(),
            underlined: self.underlined.deep_view(),
            strikethrough: self.strikethrough.deep_view(),
            superscript: self.superscript.deep_view(),
            link: self.link.deep_view(),
            color: self.color.deep_view(),
            attachment_info: self.attachment_info.deep_view(),
        }
    }
}

/// A `ANAttributeRun` with every field absent.
pub open spec fn empty_attribute_run_model() -> AttributeRunModel {
    AttributeRunModel {
        length: None,
        paragraph_style: None,
        font: None,
        font_weight: None,
        underlined: None,
        strikethrough: None,
        superscript: None,
        link: None,
        color: None,
        attachment_info: None,
    }
}

/// A `ANAttributeRun` with every field absent.
pub fn empty_attribute_run() -> (m: ANAttributeRun)
    ensures
        m.deep_view() == empty_attribute_run_model(),
{
    let m = ANAttributeRun {
        length: None,
        paragraph_style: None,
        font: None,
        font_weight: None,
        underlined: None,
        strikethrough: None,
        superscript: None,
        link: None,
        color: None,
        attachment_info: None,
    };
    proof {
        assert(m.deep_view() =~= empty_attribute_run_model());
    }
    m
}

/// The fields of a `ANAttributeRun` message in `buf` merged into `acc` the way
/// prost's decoder merges them (later scalars win, nested messages merge,
/// repeated fields append, unknown fields are skipped); `None` where the
/// decoder fails. `ctx` is the remaining nesting budget.
pub open spec fn attribute_run_merged(acc: AttributeRunModel, buf: Seq<u8>, ctx: nat) -> Option<AttributeRunModel>
    decreases buf.len(),
{
    if buf.len() == 0 {
        Some(acc)
    } else {
        match field_key(buf) {
            None => None,
            Some((tag, wire, n)) => {
                let rest = buf.skip(n as int);
                proof {
                    lemma_varint_len(buf);
                    lemma_field_bounds(wire, tag, rest, ctx);
                }
                if tag == 1 {
                    match int32_field(wire, rest) {
                        Some((v, m)) => attribute_run_merged(AttributeRunModel { length: Some(v), paragraph_style: acc.paragraph_style, font: acc.font, font_weight: acc.font_weight, underlined: acc.underlined, strikethrough: acc.strikethrough, superscript: acc.superscript, link: acc.link, color: acc.color, attachment_info: acc.attachment_info }, rest.skip(m as int), ctx),
                        None => None,
                    }
                } else if tag == 2 {
                    match paragraph_style_field(acc.paragraph_style, wire, rest, ctx) {
                        Some((v, m)) => attribute_run_merged(AttributeRunModel { length: acc.length, paragraph_style: Some(v), font: acc.font, font_weight: acc.font_weight, underlined: acc.underlined, strikethrough: acc.strikethrough, superscript: acc.superscript, link: acc.link, color: acc.color, attachment_info: acc.attachment_info }, rest.skip(m as int), ctx),
                        None => None,
                    }
                } else if tag == 3 {
                    match font_field(acc.font, wire, rest, ctx) {
                        Some((v, m)) => attribute_run_merged(AttributeRunModel { length: acc.length, paragraph_style: acc.paragraph_style, font: Some(v), font_weight: acc.font_weight, underlined: acc.underlined, strikethrough: acc.strikethrough, superscript: acc.superscript, link: acc.link, color: acc.color, attachment_info: acc.attachment_info }, rest.skip(m as int), ctx),
                        None => None,
                    }
                } else if tag == 5 {
                    match int32_field(wire, rest) {
                        Some((v, m)) => attribute_run_merged(AttributeRunModel { length: acc.length, paragraph_style: acc.paragraph_style, font: acc.font, font_weight: Some(v), underlined: acc.underlined, strikethrough: acc.strikethrough, superscript: acc.superscript, link: acc.link, color: acc.color, attachment_info: acc.attachment_info }, rest.skip(m as int), ctx),
                        None => None,
                    }
                } else if tag == 6 {
                    match int32_field(wire, rest) {
                        Some((v, m)) => attribute_run_merged(AttributeRunModel { length: acc.length, paragraph_style: acc.paragraph_style, font: acc.font, font_weight: acc.font_weight, underlined: Some(v), strikethrough: acc.strikethrough, superscript: acc.superscript, link: acc.link, color: acc.color, attachment_info: acc.attachment_info }, rest.skip(m as int), ctx),
                        None => None,
                    }
                } else if tag == 7 {
                    match int32_field(wire, rest) {
                        Some((v, m)) => attribute_run_merged(AttributeRunModel { length: acc.length, paragraph_style: acc.paragraph_style, font: acc.font, font_weight: acc.font_weight, underlined: acc.underlined, strikethrough: Some(v), superscript: acc.superscript, link: acc.link, color: acc.color, attachment_info: acc.attachment_info }, rest.skip(m as int), ctx),
                        None => None,
                    }
                } else if tag == 8 {
                    match int32_field(wire, rest) {
                        Some((v, m)) => attribute_run_merged(AttributeRunModel { length: acc.length, paragraph_style: acc.paragraph_style, font: acc.font, font_weight: acc.font_weight, underlined: acc.underlined, strikethrough: acc.strikethrough, superscript: Some(v), link: acc.link, color: acc.color, attachment_info: acc.attachment_info }, rest.skip(m as int), ctx),
                        None => None,
                    }
                } else if tag == 9 {
                    match string_field(wire, rest) {
                        Some((v, m)) => attribute_run_merged(AttributeRunModel { length: acc.length, paragraph_style: acc.paragraph_style, font: acc.font, font_weight: acc.font_weight, underlined: acc.underlined, strikethrough: acc.strikethrough, superscript: acc.superscript, link: Some(v), color: acc.color, attachment_info: acc.attachment_info }, rest.skip(m as int), ctx),
                        None => None,
                    }
                } else if tag == 10 {
                    match color_field(acc.color, wire, rest, ctx) {
                        Some((v, m)) => attribute_run_merged(AttributeRunModel { length: acc.length, paragraph_style: acc.paragraph_style, font: acc.font, font_weight: acc.font_weight, underlined: acc.underlined, strikethrough: acc.strikethrough, superscript: acc.superscript, link: acc.link, color: Some(v), attachment_info: acc.attachment_info }, rest.skip(m as int), ctx),
                        None => None,
                    }
                } else if tag == 12 {
                    match attachment_info_field(acc.attachment_info, wire, rest, ctx) {
                        Some((v, m)) => attribute_run_merged(AttributeRunModel { length: acc.length, paragraph_style: acc.paragraph_style, font: acc.font, font_weight: acc.font_weight, underlined: acc.underlined, strikethrough: acc.strikethrough, superscript: acc.superscript, link: acc.link, color: acc.color, attachment_info: Some(v) }, rest.skip(m as int), ctx),
                        None => None,
                    }
                } else {
                    match unknown_field(wire, tag, rest, ctx) {
                        Some(m) => attribute_run_merged(acc, rest.skip(m as int), ctx),
                        None => None,
                    }
                }
            },
        }
    }
}

/// Merges the fields of a `ANAttributeRun` message in `buf` into `acc`.
#[verifier::spinoff_prover]
#[verifier::rlimit(100)]
pub fn merge_attribute_run(init: ANAttributeRun, buf: &[u8], ctx: u32) -> (r: Option<ANAttributeRun>)
    ensures
        r.deep_view() == attribute_run_merged(init.deep_view(), buf@, ctx as nat),
{
    let ghost start = init.deep_view();
    let mut acc = init;
    let mut pos: usize = 0;
    assert(buf@.skip(0) =~= buf@);
    while pos < buf.len()
        invariant
            pos <= buf@.len(),
            start == init.deep_view(),
            attribute_run_merged(start, buf@, ctx as nat) == attribute_run_merged(acc.deep_view(), buf@.skip(pos as int), ctx as nat),
        decreases buf@.len() - pos,
    {
        let ghost here = buf@.skip(pos as int);
        let (tag, wire, p) = match read_key(buf, pos) {
            Some(k) => k,
            None => {
                return None;
            },
        };
        proof {
            lemma_varint_len(here);
            assert(here.skip(p - pos) =~= buf@.skip(p as int));
            lemma_field_bounds(wire@, tag, buf@.skip(p as int), ctx as nat);
        }
        if tag == 1 {
            match read_int32(wire, buf, p) {
                Some((v, next)) => {
                    proof {
                        assert(buf@.skip(p as int).skip(next - p) =~= buf@.skip(next as int));
                    }
                    acc.length = Some(v);
                    pos = next;
                },
                None => {
                    return None;
                },
            }
        } else if tag == 2 {
            let ghost before = acc.deep_view();
            match read_paragraph_style_field(acc.paragraph_style.take(), wire, buf, p, ctx) {
                Some((v, next)) => {
                    proof {
                        assert(buf@.skip(p as int).skip(next - p) =~= buf@.skip(next as int));
                    }
                    acc.paragraph_style = Some(v);
                    proof {
                        assert(acc.deep_view() =~= AttributeRunModel { length: before.length, paragraph_style: Some(v.deep_view()), font: before.font, font_weight: before.font_weight, underlined: before.underlined, strikethrough: before.strikethrough, superscript: before.superscript, link: before.link, color: before.color, attachment_info: before.attachment_info });
                    }
                    pos = next;
                },
                None => {
                    return None;
                },
            }
        } else if tag == 3 {
            let ghost before = acc.deep_view();
            match read_font_field(acc.font.take(), wire, buf, p, ctx) {
                Some((v, next)) => {
                    proof {
                        assert(buf@.skip(p as int).skip(next - p) =~= buf@.skip(next as int));
                    }
                    acc.font = Some(v);
                    proof {
                        assert(acc.deep_view() =~= AttributeRunModel { length: before.length, paragraph_style: before.paragraph_style, font: Some(v.deep_view()), font_weight: before.font_weight, underlined: before.underlined, strikethrough: before.strikethrough, superscript: before.superscript, link: before.link, color: before.color, attachment_info: before.attachment_info });
                    }
                    pos = next;
                },
                None => {
                    return None;
                },
            }
        } else if tag == 5 {
            match read_int32(wire, buf, p) {
                Some((v, next)) => {
                    proof {
                        assert(buf@.skip(p as int).skip(next - p) =~= buf@.skip(next as int));
                    }
                    acc.font_weight = Some(v);
                    pos = next;
                },
                None => {
                    return None;
                },
            }
        } else if tag == 6 {
            match read_int32(wire, buf, p) {
                Some((v, next)) => {
                    proof {
                        assert(buf@.skip(p as int).skip(next - p) =~= buf@.skip(next as int));
                    }
                    acc.underlined = Some(v);
                    pos = next;
                },
                None => {
                    return None;
                },
            }
        } else if tag == 7 {
            match read_int32(wire, buf, p) {
                Some((v, next)) => {
                    proof {
                        assert(buf@.skip(p as int).skip(next - p) =~= buf@.skip(next as int));
                    }
                    acc.strikethrough = Some(v);
                    pos = next;
                },
                None => {
                    return None;
                },
            }
        } else if tag == 8 {
            match read_int32(wire, buf, p) {
                Some((v, next)) => {
                    proof {
                        assert(buf@.skip(p as int).skip(next - p) =~= buf@.skip(next as int));
                    }
                    acc.superscript = Some(v);
                    pos = next;
                },
                None => {
                    return None;
                },
            }
        } else if tag == 9 {
            match read_string(wire, buf, p) {
                Some((v, next)) => {
                    proof {
                        assert(buf@.skip(p as int).skip(next - p) =~= buf@.skip(next as int));
                    }
                    acc.link = Some(v);
                    pos = next;
                },
                None => {
                    return None;
                },
            }
        } else if tag == 10 {
            let ghost before = acc.deep_view();
            match read_color_field(acc.color.take(), wire, buf, p, ctx) {
                Some((v, next)) => {
                    proof {
                        assert(buf@.skip(p as int).skip(next - p) =~= buf@.skip(next as int));
                    }
                    acc.color = Some(v);
                    proof {
                        assert(acc.deep_view() =~= AttributeRunModel { length: before.length, paragraph_style: before.paragraph_style, font: before.font, font_weight: before.font_weight, underlined: before.underlined, strikethrough: before.strikethrough, superscript: before.superscript, link: before.link, color: Some(v.deep_view()), attachment_info: before.attachment_info });
                    }
                    pos = next;
                },
                None => {
                    return None;
                },
            }
        } else if tag == 12 {
            let ghost before = acc.deep_view();
            match read_attachment_info_field(acc.attachment_info.take(), wire, buf, p, ctx) {
                Some((v, next)) => {
                    proof {
                        assert(buf@.skip(p as int).skip(next - p) =~= buf@.skip(next as int));
                    }
                    acc.attachment_info = Some(v);
                    proof {
                        assert(acc.deep_view() =~= AttributeRunModel { length: before.length, paragraph_style: before.paragraph_style, font: before.font, font_weight: before.font_weight, underlined: before.underlined, strikethrough: before.strikethrough, superscript: before.superscript, link: before.link, color: before.color, attachment_info: Some(v.deep_view()) });
                    }
                    pos = next;
                },
                None => {
                    return None;
                },
            }
        } else {
            match read_unknown(wire, tag, buf, p, ctx) {
                Some(next) => {
                    proof {
                        assert(buf@.skip(p as int).skip(next - p) =~= buf@.skip(next as int));
                    }
                    pos = next;
                },
                None => {
                    return None;
                },
            }
        }
    }
    Some(acc)
}

/// A length-delimited `ANAttributeRun` field merged into `current` (an absent
/// one starts empty): the merged message and the bytes the field takes.
/// Each nesting level spends one unit of `ctx`.
pub open spec fn attribute_run_field(current: Option<AttributeRunModel>, wire: u8, rest: Seq<u8>, ctx: nat) -> Option<(AttributeRunModel, nat)> {
    match bytes_field(wire, rest) {
        Some((p, m)) => if ctx == 0 {
            None
        } else {
            let start = match current {
                Some(c) => c,
                None => empty_attribute_run_model(),
            };
            match attribute_run_merged(start, p, (ctx - 1) as nat) {
                Some(v) => Some((v, m)),
                None => None,
            }
        },
        None => None,
    }
}

/// Reads a `ANAttributeRun` field whose length prefix is at `buf[pos..]` and merges
/// it into `current`.
fn read_attribute_run_field(current: Option<ANAttributeRun>, wire: WireKind, buf: &[u8], pos: usize, ctx: u32) -> (r: Option<(ANAttributeRun, usize)>)
    requires
        pos <= buf@.len(),
    ensures
        match attribute_run_field(current.deep_view(), wire@, buf@.skip(pos as int), ctx as nat) {
            Some((v, m)) => r matches Some((x, next)) && x.deep_view() == v && next == pos + m,
            None => r is None,
        },
{
    let (from, to) = match read_delimited(wire, buf, pos) {
        Some(b) => b,
        None => {
            return None;
        },
    };
    if ctx == 0 {
        return None;
    }
    let start = match current {
        Some(c) => c,
        None => empty_attribute_run(),
    };
    let body = vstd::slice::slice_subrange(buf, from, to);
    match merge_attribute_run(start, body, ctx - 1) {
        Some(v) => Some((v, to)),
        None => None,
    }
}

/// The body of a note: its plain text and the attribute runs that style it.
#[derive(Clone, Debug, PartialEq)]
pub struct ANNote {
    /// The note's plain text.
    pub note_text: Option<String>,
    /// Attribute runs, in text order.
    pub attribute_run: Vec<ANAttributeRun>,
}

/// The value of a [`ANNote`]; text as characters, byte strings as
/// sequences.
pub struct NoteModel {
    pub note_text: Option<Seq<char>>,
    pub attribute_run: Seq<AttributeRunModel>,
}

impl DeepView for ANNote {
    type V = NoteModel;

    open spec fn deep_view(&self) -> NoteModel {
        NoteModel {
            note_text: self.note_text.deep_view(),
            attribute_run: self.attribute_run.deep_view(),
        }
    }
}

/// A `ANNote` with every field absent.
pub open spec fn empty_note_model() -> NoteModel {
    NoteModel {
        note_text: None,
        attribute_run: Seq::empty(),
    }
}

/// A `ANNote` with every field absent.
pub fn empty_note() -> (m: ANNote)
    ensures
        m.deep_view() == empty_note_model(),
{
    let m = ANNote {
        note_text: None,
        attribute_run: Vec::new(),
    };
    proof {
        assert(m.attribute_run.deep_view() =~= Seq::empty());
        assert(m.deep_view() =~= empty_note_model());
    }
    m
}

/// The fields of a `ANNote` message in `buf` merged into `acc` the way
/// prost's decoder merges them (later scalars win, nested messages merge,
/// repeated fields append, unknown fields are skipped); `None` where the
/// decoder fails. `ctx` is the remaining nesting budget.
pub open spec fn note_merged(acc: NoteModel, buf: Seq<u8>, ctx: nat) -> Option<NoteModel>
    decreases buf.len(),
{
    if buf.len() == 0 {
        Some(acc)
    } else {
        match field_key(buf) {
            None => None,
            Some((tag, wire, n)) => {
                let rest = buf.skip(n as int);
                proof {
                    lemma_varint_len(buf);
                    lemma_field_bounds(wire, tag, rest, ctx);
                }
                if tag == 2 {
                    match string_field(wire, rest) {
                        Some((v, m)) => note_merged(NoteModel { note_text: Some(v), attribute_run: acc.attribute_run }, rest.skip(m as int), ctx),
                        None => None,
                    }
                } else if tag == 5 {
                    match attribute_run_field(None, wire, rest, ctx) {
                        Some((v, m)) => note_merged(NoteModel { note_text: acc.note_text, attribute_run: acc.attribute_run.push(v) }, rest.skip(m as int), ctx),
                        None => None,
                    }
                } else {
                    match unknown_field(wire, tag, rest, ctx) {
                        Some(m) => note_merged(acc, rest.skip(m as int), ctx),
                        None => None,
                    }
                }
            },
        }
    }
}

/// Merges the fields of a `ANNote` message in `buf` into `acc`.
#[verifier::spinoff_prover]
#[verifier::rlimit(100)]
pub fn merge_note(init: ANNote, buf: &[u8], ctx: u32) -> (r: Option<ANNote>)
    ensures
        r.deep_view() == note_merged(init.deep_view(), buf@, ctx as nat),
{
    let ghost start = init.deep_view();
    let mut acc = init;
    let mut pos: usize = 0;
    assert(buf@.skip(0) =~= buf@);
    while pos < buf.len()
        invariant
            pos <= buf@.len(),
            start == init.deep_view(),
            note_merged(start, buf@, ctx as nat) == note_merged(acc.deep_view(), buf@.skip(pos as int), ctx as nat),
        decreases buf@.len() - pos,
    {
        let ghost here = buf@.skip(pos as int);
        let (tag, wire, p) = match read_key(buf, pos) {
            Some(k) => k,
            None => {
                return None;
            },
        };
        proof {
            lemma_varint_len(here);
            assert(here.skip(p - pos) =~= buf@.skip(p as int));
            lemma_field_bounds(wire@, tag, buf@.skip(p as int), ctx as nat);
        }
        if tag == 2 {
            match read_string(wire, buf, p) {
                Some((v, next)) => {
                    proof {
                        assert(buf@.skip(p as int).skip(next - p) =~= buf@.skip(next as int));
                    }
                    acc.note_text = Some(v);
                    pos = next;
                },
                None => {
                    return None;
                },
            }
        } else if tag == 5 {
            let ghost before = acc.deep_view();
            match read_attribute_run_field(None, wire, buf, p, ctx) {
                Some((v, next)) => {
                    proof {
                        assert(buf@.skip(p as int).skip(next - p) =~= buf@.skip(next as int));
                    }
                    let ghost item = v.deep_view();
                    let ghost pushed = v;
                    let ghost items = acc.attribute_run@;
                    acc.attribute_run.push(v);
                    proof {
                        assert(acc.attribute_run@ == items.push(pushed));
                        assert(acc.attribute_run.deep_view() =~= before.attribute_run.push(item));
                    }
                    proof {
                        assert(acc.deep_view() =~= NoteModel { note_text: before.note_text, attribute_run: before.attribute_run.push(item) });
                    }
                    pos = next;
                },
                None => {
                    return None;
                },
            }
        } else {
            match read_unknown(wire, tag, buf, p, ctx) {
                Some(next) => {
                    proof {
                        assert(buf@.skip(p as int).skip(next - p) =~= buf@.skip(next as int));
                    }
                    pos = next;
                },
                None => {
                    return None;
                },
            }
        }
    }
    Some(acc)
}

/// A length-delimited `ANNote` field merged into `current` (an absent
/// one starts empty): the merged message and the bytes the field takes.
/// Each nesting level spends one unit of `ctx`.
pub open spec fn note_field(current: Option<NoteModel>, wire: u8, rest: Seq<u8>, ctx: nat) -> Option<(NoteModel, nat)> {
    match bytes_field(wire, rest) {
        Some((p, m)) => if ctx == 0 {
            None
        } else {
            let start = match current {
                Some(c) => c,
                None => empty_note_model(),
            };
            match note_merged(start, p, (ctx - 1) as nat) {
                Some(v) => Some((v, m)),
                None => None,
            }
        },
        None => None,
    }
}

/// Reads a `ANNote` field whose length prefix is at `buf[pos..]` and merges
/// it into `current`.
fn read_note_field(current: Option<ANNote>, wire: WireKind, buf: &[u8], pos: usize, ctx: u32) -> (r: Option<(ANNote, usize)>)
    requires
        pos <= buf@.len(),
    ensures
        match note_field(current.deep_view(), wire@, buf@.skip(pos as int), ctx as nat) {
            Some((v, m)) => r matches Some((x, next)) && x.deep_view() == v && next == pos + m,
            None => r is None,
        },
{
    let (from, to) = match read_delimited(wire, buf, pos) {
        Some(b) => b,
        None => {
            return None;
        },
    };
    if ctx == 0 {
        return None;
    }
    let start = match current {
        Some(c) => c,
        None => empty_note(),
    };
    let body = vstd::slice::slice_subrange(buf, from, to);
    match merge_note(start, body, ctx - 1) {
        Some(v) => Some((v, to)),
        None => None,
    }
}

/// Wrapper message of the newer document format; holds the note at tag 3.
#[derive(Clone, Debug, PartialEq)]
pub struct ANNoteObject {
    /// Unidentified field.
    pub unknown1: Option<i32>,
    /// Unidentified field.
    pub unknown2: Option<i32>,
    /// The note.
    pub note: Option<ANNote>,
}

/// The value of a [`ANNoteObject`]; text as characters, byte strings as
/// sequences.
pub struct NoteObjectModel {
    pub unknown1: Option<i32>,
    pub unknown2: Option<i32>,
    pub note: Option<NoteModel>,
}

impl DeepView for ANNoteObject {
    type V = NoteObjectModel;

    open spec fn deep_view(&self) -> NoteObjectModel {
        NoteObjectModel {
            unknown1: self.unknown1.deep_view(),
            unknown2: self.unknown2.deep_view(),
            note: self.note.deep_view(),
        }
    }
}

/// A `ANNoteObject` with every field absent.
pub open spec fn empty_note_object_model() -> NoteObjectModel {
    NoteObjectModel {
        unknown1: None,
        unknown2: None,
        note: None,
    }
}

/// A `ANNoteObject` with every field absent.
pub fn empty_note_object() -> (m: ANNoteObject)
    ensures
        m.deep_view() == empty_note_object_model(),
{
    let m = ANNoteObject {
        unknown1: None,
        unknown2: None,
        note: None,
    };
    proof {
        assert(m.deep_view() =~= empty_note_object_model());
    }
    m
}

/// The fields of a `ANNoteObject` message in `buf` merged into `acc` the way
/// prost's decoder merges them (later scalars win, nested messages merge,
/// repeated fields append, unknown fields are skipped); `None` where the
/// decoder fails. `ctx` is the remaining nesting budget.
pub open spec fn note_object_merged(acc: NoteObjectModel, buf: Seq<u8>, ctx: nat) -> Option<NoteObjectModel>
    decreases buf.len(),
{
    if buf.len() == 0 {
        Some(acc)
    } else {
        match field_key(buf) {
            None => None,
            Some((tag, wire, n)) => {
                let rest = buf.skip(n as int);
                proof {
                    lemma_varint_len(buf);
                    lemma_field_bounds(wire, tag, rest, ctx);
                }
                if tag == 1 {
                    match int32_field(wire, rest) {
                        Some((v, m)) => note_object_merged(NoteObjectModel { unknown1: Some(v), unknown2: acc.unknown2, note: acc.note }, rest.skip(m as int), ctx),
                        None => None,
                    }
                } else if tag == 2 {
                    match int32_field(wire, rest) {
                        Some((v, m)) => note_object_merged(NoteObjectModel { unknown1: acc.unknown1, unknown2: Some(v), note: acc.note }, rest.skip(m as int), ctx),
                        None => None,
                    }
                } else if tag == 3 {
                    match note_field(acc.note, wire, rest, ctx) {
                        Some((v, m)) => note_object_merged(NoteObjectModel { unknown1: acc.unknown1, unknown2: acc.unknown2, note: Some(v) }, rest.skip(m as int), ctx),
                        None => None,
                    }
                } else {
                    match unknown_field(wire, tag, rest, ctx) {
                        Some(m) => note_object_merged(acc, rest.skip(m as int), ctx),
                        None => None,
                    }
                }
            },
        }
    }
}

/// Merges the fields of a `ANNoteObject` message in `buf` into `acc`.
#[verifier::spinoff_prover]
#[verifier::rlimit(100)]
pub fn merge_note_object(init: ANNoteObject, buf: &[u8], ctx: u32) -> (r: Option<ANNoteObject>)
    ensures
        r.deep_view() == note_object_merged(init.deep_view(), buf@, ctx as nat),
{
    let ghost start = init.deep_view();
    let mut acc = init;
    let mut pos: usize = 0;
    assert(buf@.skip(0) =~= buf@);
    while pos < buf.len()
        invariant
            pos <= buf@.len(),
            start == init.deep_view(),
            note_object_merged(start, buf@, ctx as nat) == note_object_merged(acc.deep_view(), buf@.skip(pos as int), ctx as nat),
        decreases buf@.len() - pos,
    {
        let ghost here = buf@.skip(pos as int);
        let (tag, wire, p) = match read_key(buf, pos) {
            Some(k) => k,
            None => {
                return None;
            },
        };
        proof {
            lemma_varint_len(here);
            assert(here.skip(p - pos) =~= buf@.skip(p as int));
            lemma_field_bounds(wire@, tag, buf@.skip(p as int), ctx as nat);
        }
        if tag == 1 {
            match read_int32(wire, buf, p) {
                Some((v, next)) => {
                    proof {
                        assert(buf@.skip(p as int).skip(next - p) =~= buf@.skip(next as int));
                    }
                    acc.unknown1 = Some(v);
                    pos = next;
                },
                None => {
                    return None;
                },
            }
        } else if tag == 2 {
            match read_int32(wire, buf, p) {
                Some((v, next)) => {
                    proof {
                        assert(buf@.skip(p as int).skip(next - p) =~= buf@.skip(next as int));
                    }
                    acc.unknown2 = Some(v);
                    pos = next;
                },
                None => {
                    return None;
                },
            }
        } else if tag == 3 {
            let ghost before = acc.deep_view();
            match read_note_field(acc.note.take(), wire, buf, p, ctx) {
                Some((v, next)) => {
                    proof {
                        assert(buf@.skip(p as int).skip(next - p) =~= buf@.skip(next as int));
                    }
                    acc.note = Some(v);
                    proof {
                        assert(acc.deep_view() =~= NoteObjectModel { unknown1: before.unknown1, unknown2: before.unknown2, note: Some(v.deep_view()) });
                    }
                    pos = next;
                },
                None => {
                    return None;
                },
            }
        } else {
            match read_unknown(wire, tag, buf, p, ctx) {
                Some(next) => {
                    proof {
                        assert(buf@.skip(p as int).skip(next - p) =~= buf@.skip(next as int));
                    }
                    pos = next;
                },
                None => {
                    return None;
                },
            }
        }
    }
    Some(acc)
}

/// A length-delimited `ANNoteObject` field merged into `current` (an absent
/// one starts empty): the merged message and the bytes the field takes.
/// Each nesting level spends one unit of `ctx`.
pub open spec fn note_object_field(current: Option<NoteObjectModel>, wire: u8, rest: Seq<u8>, ctx: nat) -> Option<(NoteObjectModel, nat)> {
    match bytes_field(wire, rest) {
        Some((p, m)) => if ctx == 0 {
            None
        } else {
            let start = match current {
                Some(c) => c,
                None => empty_note_object_model(),
            };
            match note_object_merged(start, p, (ctx - 1) as nat) {
                Some(v) => Some((v, m)),
                None => None,
            }
        },
        None => None,
    }
}

/// Reads a `ANNoteObject` field whose length prefix is at `buf[pos..]` and merges
/// it into `current`.
fn read_note_object_field(current: Option<ANNoteObject>, wire: WireKind, buf: &[u8], pos: usize, ctx: u32) -> (r: Option<(ANNoteObject, usize)>)
    requires
        pos <= buf@.len(),
    ensures
        match note_object_field(current.deep_view(), wire@, buf@.skip(pos as int), ctx as nat) {
            Some((v, m)) => r matches Some((x, next)) && x.deep_view() == v && next == pos + m,
            None => r is None,
        },
{
    let (from, to) = match read_delimited(wire, buf, pos) {
        Some(b) => b,
        None => {
            return None;
        },
    };
    if ctx == 0 {
        return None;
    }
    let start = match current {
        Some(c) => c,
        None => empty_note_object(),
    };
    let body = vstd::slice::slice_subrange(buf, from, to);
    match merge_note_object(start, body, ctx - 1) {
        Some(v) => Some((v, to)),
        None => None,
    }
}

/// Document in the newer format: version at tag 1, note object at tag 2.
#[derive(Clone, Debug, PartialEq)]
pub struct ANDocumentV2 {
    /// Format version.
    pub version: Option<i32>,
    /// The wrapped note.
    pub note_object: Option<ANNoteObject>,
}

/// The value of a [`ANDocumentV2`]; text as characters, byte strings as
/// sequences.
pub struct DocumentV2Model {
    pub version: Option<i32>,
    pub note_object: Option<NoteObjectModel>,
}

impl DeepView for ANDocumentV2 {
    type V = DocumentV2Model;

    open spec fn deep_view(&self) -> DocumentV2Model {
        DocumentV2Model {
            version: self.version.deep_view(),
            note_object: self.note_object.deep_view(),
        }
    }
}

/// A `ANDocumentV2` with every field absent.
pub open spec fn empty_document_v2_model() -> DocumentV2Model {
    DocumentV2Model {
        version: None,
        note_object: None,
    }
}

/// A `ANDocumentV2` with every field absent.
pub fn empty_document_v2() -> (m: ANDocumentV2)
    ensures
        m.deep_view() == empty_document_v2_model(),
{
    let m = ANDocumentV2 {
        version: None,
        note_object: None,
    };
    proof {
        assert(m.deep_view() =~= empty_document_v2_model());
    }
    m
}

/// The fields of a `ANDocumentV2` message in `buf` merged into `acc` the way
/// prost's decoder merges them (later scalars win, nested messages merge,
/// repeated fields append, unknown fields are skipped); `None` where the
/// decoder fails. `ctx` is the remaining nesting budget.
pub open spec fn document_v2_merged(acc: DocumentV2Model, buf: Seq<u8>, ctx: nat) -> Option<DocumentV2Model>
    decreases buf.len(),
{
    if buf.len() == 0 {
        Some(acc)
    } else {
        match field_key(buf) {
            None => None,
            Some((tag, wire, n)) => {
                let rest = buf.skip(n as int);
                proof {
                    lemma_varint_len(buf);
                    lemma_field_bounds(wire, tag, rest, ctx);
                }
                if tag == 1 {
                    match int32_field(wire, rest) {
                        Some((v, m)) => document_v2_merged(DocumentV2Model { version: Some(v), note_object: acc.note_object }, rest.skip(m as int), ctx),
                        None => None,
                    }
                } else if tag == 2 {
                    match note_object_field(acc.note_object, wire, rest, ctx) {
                        Some((v, m)) => document_v2_merged(DocumentV2Model { version: acc.version, note_object: Some(v) }, rest.skip(m as int), ctx),
                        None => None,
                    }
                } else {
                    match unknown_field(wire, tag, rest, ctx) {
                        Some(m) => document_v2_merged(acc, rest.skip(m as int), ctx),
                        None => None,
                    }
                }
            },
        }
    }
}

/// Merges the fields of a `ANDocumentV2` message in `buf` into `acc`.
#[verifier::spinoff_prover]
#[verifier::rlimit(100)]
pub fn merge_document_v2(init: ANDocumentV2, buf: &[u8], ctx: u32) -> (r: Option<ANDocumentV2>)
    ensures
        r.deep_view() == document_v2_merged(init.deep_view(), buf@, ctx as nat),
{
    let ghost start = init.deep_view();
    let mut acc = init;
    let mut pos: usize = 0;
    assert(buf@.skip(0) =~= buf@);
    while pos < buf.len()
        invariant
            pos <= buf@.len(),
            start == init.deep_view(),
            document_v2_merged(start, buf@, ctx as nat) == document_v2_merged(acc.deep_view(), buf@.skip(pos as int), ctx as nat),
        decreases buf@.len() - pos,
    {
        let ghost here = buf@.skip(pos as int);
        let (tag, wire, p) = match read_key(buf, pos) {
            Some(k) => k,
            None => {
                return None;
            },
        };
        proof {
            lemma_varint_len(here);
            assert(here.skip(p - pos) =~= buf@.skip(p as int));
            lemma_field_bounds(wire@, tag, buf@.skip(p as int), ctx as nat);
        }
        if tag == 1 {
            match read_int32(wire, buf, p) {
                Some((v, next)) => {
                    proof {
                        assert(buf@.skip(p as int).skip(next - p) =~= buf@.skip(next as int));
                    }
                    acc.version = Some(v);
                    pos = next;
                },
                None => {
                    return None;
                },
            }
        } else if tag == 2 {
            let ghost before = acc.deep_view();
            match read_note_object_field(acc.note_object.take(), wire, buf, p, ctx) {
                Some((v, next)) => {
                    proof {
                        assert(buf@.skip(p as int).skip(next - p) =~= buf@.skip(next as int));
                    }
                    acc.note_object = Some(v);
                    proof {
                        assert(acc.deep_view() =~= DocumentV2Model { version: before.version, note_object: Some(v.deep_view()) });
                    }
                    pos = next;
                },
                None => {
                    return None;
                },
            }
        } else {
            match read_unknown(wire, tag, buf, p, ctx) {
                Some(next) => {
                    proof {
                        assert(buf@.skip(p as int).skip(next - p) =~= buf@.skip(next as int));
                    }
                    pos = next;
                },
                None => {
                    return None;
                },
            }
        }
    }
    Some(acc)
}

/// Document in the older format: version at tag 2, note at tag 3.
#[derive(Clone, Debug, PartialEq)]
pub struct ANDocumentV1 {
    /// Format version.
    pub version: Option<i32>,
    /// The note.
    pub note: Option<ANNote>,
}

/// The value of a [`ANDocumentV1`]; text as characters, byte strings as
/// sequences.
pub struct DocumentV1Model {
    pub version: Option<i32>,
    pub note: Option<NoteModel>,
}

impl DeepView for ANDocumentV1 {
    type V = DocumentV1Model;

    open spec fn deep_view(&self) -> DocumentV1Model {
        DocumentV1Model {
            version: self.version.deep_view(),
            note: self.note.deep_view(),
        }
    }
}

/// A `ANDocumentV1` with every field absent.
pub open spec fn empty_document_v1_model() -> DocumentV1Model {
    DocumentV1Model {
        version: None,
        note: None,
    }
}

/// A `ANDocumentV1` with every field absent.
pub fn empty_document_v1() -> (m: ANDocumentV1)
    ensures
        m.deep_view() == empty_document_v1_model(),
{
    let m = ANDocumentV1 {
        version: None,
        note: None,
    };
    proof {
        assert(m.deep_view() =~= empty_document_v1_model());
    }
    m
}

/// The fields of a `ANDocumentV1` message in `buf` merged into `acc` the way
/// prost's decoder merges them (later scalars win, nested messages merge,
/// repeated fields append, unknown fields are skipped); `None` where the
/// decoder fails. `ctx` is the remaining nesting budget.
pub open spec fn document_v1_merged(acc: DocumentV1Model, buf: Seq<u8>, ctx: nat) -> Option<DocumentV1Model>
    decreases buf.len(),
{
    if buf.len() == 0 {
        Some(acc)
    } else {
        match field_key(buf) {
            None => None,
            Some((tag, wire, n)) => {
                let rest = buf.skip(n as int);
                proof {
                    lemma_varint_len(buf);
                    lemma_field_bounds(wire, tag, rest, ctx);
                }
                if tag == 2 {
                    match int32_field(wire, rest) {
                        Some((v, m)) => document_v1_merged(DocumentV1Model { version: Some(v), note: acc.note }, rest.skip(m as int), ctx),
                        None => None,
                    }
                } else if tag == 3 {
                    match note_field(acc.note, wire, rest, ctx) {
                        Some((v, m)) => document_v1_merged(DocumentV1Model { version: acc.version, note: Some(v) }, rest.skip(m as int), ctx),
                        None => None,
                    }
                } else {
                    match unknown_field(wire, tag, rest, ctx) {
                        Some(m) => document_v1_merged(acc, rest.skip(m as int), ctx),
                        None => None,
                    }
                }
            },
        }
    }
}

/// Merges the fields of a `ANDocumentV1` message in `buf` into `acc`.
#[verifier::spinoff_prover]
#[verifier::rlimit(100)]
pub fn merge_document_v1(init: ANDocumentV1, buf: &[u8], ctx: u32) -> (r: Option<ANDocumentV1>)
    ensures
        r.deep_view() == document_v1_merged(init.deep_view(), buf@, ctx as nat),
{
    let ghost start = init.deep_view();
    let mut acc = init;
    let mut pos: usize = 0;
    assert(buf@.skip(0) =~= buf@);
    while pos < buf.len()
        invariant
            pos <= buf@.len(),
            start == init.deep_view(),
            document_v1_merged(start, buf@, ctx as nat) == document_v1_merged(acc.deep_view(), buf@.skip(pos as int), ctx as nat),
        decreases buf@.len() - pos,
    {
        let ghost here = buf@.skip(pos as int);
        let (tag, wire, p) = match read_key(buf, pos) {
            Some(k) => k,
            None => {
                return None;
            },
        };
        proof {
            lemma_varint_len(here);
            assert(here.skip(p - pos) =~= buf@.skip(p as int));
            lemma_field_bounds(wire@, tag, buf@.skip(p as int), ctx as nat);
        }
        if tag == 2 {
            match read_int32(wire, buf, p) {
                Some((v, next)) => {
                    proof {
                        assert(buf@.skip(p as int).skip(next - p) =~= buf@.skip(next as int));
                    }
                    acc.version = Some(v);
                    pos = next;
                },
                None => {
                    return None;
                },
            }
        } else if tag == 3 {
            let ghost before = acc.deep_view();
            match read_note_field(acc.note.take(), wire, buf, p, ctx) {
                Some((v, next)) => {
                    proof {
                        assert(buf@.skip(p as int).skip(next - p) =~= buf@.skip(next as int));
                    }
                    acc.note = Some(v);
                    proof {
                        assert(acc.deep_view() =~= DocumentV1Model { version: before.version, note: Some(v.deep_view()) });
                    }
                    pos = next;
                },
                None => {
                    return None;
                },
            }
        } else {
            match read_unknown(wire, tag, buf, p, ctx) {
                Some(next) => {
                    proof {
                        assert(buf@.skip(p as int).skip(next - p) =~= buf@.skip(next as int));
                    }
                    pos = next;
                },
                None => {
                    return None;
                },
            }
        }
    }
    Some(acc)
}


} // verus!
