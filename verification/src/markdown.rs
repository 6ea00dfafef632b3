//! Conversion of a decoded note into Markdown, run by run.
use vstd::prelude::*;

use crate::note::{ANAttributeRun, ANNote, AttributeRunModel, NoteModel};
use crate::text::{
    all_whitespace, chars_equal, chars_of, decimal, has_prefix, is_blank, push_all, push_signed_zero_padded,
    signed_zero_padded, string_from_chars, trim, trim_chars, lemma_trim_idempotent,
};

verus! {

/// Paragraph style used when a run has none.
pub const STYLE_DEFAULT: i32 = -1;
/// Title paragraph.
pub const STYLE_TITLE: i32 = 0;
/// Heading paragraph.
pub const STYLE_HEADING: i32 = 1;
/// Subheading paragraph.
pub const STYLE_SUBHEADING: i32 = 2;
/// Monospaced (code) paragraph.
pub const STYLE_MONOSPACED: i32 = 4;
/// Bulleted list item.
pub const STYLE_DOTTED_LIST: i32 = 100;
/// Dashed list item.
pub const STYLE_DASHED_LIST: i32 = 101;
/// Numbered list item.
pub const STYLE_NUMBERED_LIST: i32 = 102;
/// Checklist item.
pub const STYLE_CHECKBOX: i32 = 103;
/// Bold text.
pub const FONT_WEIGHT_BOLD: i32 = 1;
/// Italic text.
pub const FONT_WEIGHT_ITALIC: i32 = 2;
/// Bold italic text.
pub const FONT_WEIGHT_BOLD_ITALIC: i32 = 3;

/// Paragraph style of a run (`STYLE_DEFAULT` when absent).
pub open spec fn style_of(run: AttributeRunModel) -> i32 {
    match run.paragraph_style {
        Some(ps) => match ps.style_type {
            Some(s) => s,
            None => STYLE_DEFAULT,
        },
        None => STYLE_DEFAULT,
    }
}

/// Indentation level of a run (0 when absent).
pub open spec fn indent_of(run: AttributeRunModel) -> i32 {
    match run.paragraph_style {
        Some(ps) => match ps.indent_amount {
            Some(i) => i,
            None => 0,
        },
        None => 0,
    }
}

/// Block-quote marker of a run (0 when absent).
pub open spec fn blockquote_of(run: AttributeRunModel) -> i32 {
    match run.paragraph_style {
        Some(ps) => match ps.blockquote {
            Some(b) => b,
            None => 0,
        },
        None => 0,
    }
}

/// Checklist state of a run (0 when absent).
pub open spec fn done_of(run: AttributeRunModel) -> i32 {
    match run.paragraph_style {
        Some(ps) => match ps.checklist {
            Some(c) => match c.done {
                Some(d) => d,
                None => 0,
            },
            None => 0,
        },
        None => 0,
    }
}

/// Font weight of a run (0 when absent).
pub open spec fn weight_of(run: AttributeRunModel) -> i32 {
    match run.font_weight {
        Some(w) => w,
        None => 0,
    }
}

/// Strikethrough marker of a run (0 when absent).
pub open spec fn strikethrough_of(run: AttributeRunModel) -> i32 {
    match run.strikethrough {
        Some(s) => s,
        None => 0,
    }
}

/// `text` between two copies of `mark`.
pub open spec fn wrapped(mark: Seq<char>, text: Seq<char>) -> Seq<char> {
    mark + text + mark
}

/// A link that points outside Apple Notes.
pub open spec fn is_external_link(link: Seq<char>) -> bool {
    !has_prefix(link, "applenotes:"@)
}

/// `text` with the inline marks of `run`: emphasis by font weight, then
/// strikethrough, then an external link (unless the text is the link).
pub open spec fn inline_marked(text: Seq<char>, run: AttributeRunModel) -> Seq<char> {
    let weighted = if weight_of(run) == FONT_WEIGHT_BOLD {
        wrapped(seq!['*', '*'], text)
    } else if weight_of(run) == FONT_WEIGHT_ITALIC {
        wrapped(seq!['*'], text)
    } else if weight_of(run) == FONT_WEIGHT_BOLD_ITALIC {
        wrapped(seq!['*', '*', '*'], text)
    } else {
        text
    };
    let struck = if strikethrough_of(run) != 0 {
        wrapped(seq!['~', '~'], weighted)
    } else {
        weighted
    };
    match run.link {
        Some(link) => if is_external_link(link) && link != struck {
            seq!['['] + struck + seq![']', '('] + link + seq![')']
        } else {
            struck
        },
        None => struck,
    }
}

/// `n` tab characters.
pub open spec fn tabs(n: nat) -> Seq<char> {
    Seq::new(n, |i: int| '\t')
}

/// How `format_run` renders `fragment`: the text, the numbered-list
/// counter and the indentation of the last list item afterwards. `None`
/// where the rendering has no defined outcome (a negative indentation at the start of
/// a line, or a list counter that would pass `i32::MAX`).
pub open spec fn run_formatted(
    fragment: Seq<char>,
    run: AttributeRunModel,
    at_line_start: bool,
    list_number: i32,
    last_indent: i32,
) -> Option<(Seq<char>, i32, i32)> {
    if all_whitespace(fragment) {
        Some((fragment, list_number, last_indent))
    } else {
        let text = inline_marked(fragment, run);
        let style = style_of(run);
        let indent = indent_of(run);
        if !at_line_start {
            Some((text, list_number, last_indent))
        } else if indent < 0 {
            None
        } else {
            let lead = tabs(indent as nat);
            let bq = if blockquote_of(run) > 0 { seq!['>', ' '] } else { Seq::<char>::empty() };
            let (number, last) = if style != STYLE_NUMBERED_LIST || indent != last_indent {
                (if style == STYLE_NUMBERED_LIST { 0i32 } else { list_number }, indent)
            } else {
                (list_number, last_indent)
            };
            if style == STYLE_TITLE {
                Some((bq + seq!['#', ' '] + text, number, last))
            } else if style == STYLE_HEADING {
                Some((bq + seq!['#', '#', ' '] + text, number, last))
            } else if style == STYLE_SUBHEADING {
                Some((bq + seq!['#', '#', '#', ' '] + text, number, last))
            } else if style == STYLE_DOTTED_LIST || style == STYLE_DASHED_LIST {
                Some((bq + lead + seq!['-', ' '] + text, number, last))
            } else if style == STYLE_NUMBERED_LIST {
                if number == i32::MAX {
                    None
                } else {
                    let next = (number + 1) as i32;
                    Some((bq + lead + signed_zero_padded(next as int, 0) + seq!['.', ' '] + text, next, last))
                }
            } else if style == STYLE_CHECKBOX {
                let check = if done_of(run) != 0 { seq!['[', 'x', ']'] } else { seq!['[', ' ', ']'] };
                Some((bq + lead + seq!['-', ' '] + check + seq![' '] + text, number, last))
            } else {
                Some((bq + text, number, last))
            }
        }
    }
}

/// How `format_run_with_context` renders `fragment`: the text, whether a
/// code block is open afterwards, the list counter and the last list
/// indentation. `None` where the rendering has no defined outcome.
pub open spec fn run_in_context(
    fragment: Seq<char>,
    run: AttributeRunModel,
    at_line_start: bool,
    in_code_block: bool,
    list_number: i32,
    last_indent: i32,
) -> Option<(Seq<char>, bool, i32, i32)> {
    if run.attachment_info is Some {
        match run.link {
            Some(link) => if is_external_link(link) {
                Some(("[attachment]("@ + link + seq![')'], in_code_block, list_number, last_indent))
            } else {
                Some((Seq::empty(), in_code_block, list_number, last_indent))
            },
            None => Some((Seq::empty(), in_code_block, list_number, last_indent)),
        }
    } else {
        let style = style_of(run);
        if style == STYLE_MONOSPACED && !in_code_block {
            Some((seq!['\n', '`', '`', '`', '\n'] + fragment, true, list_number, last_indent))
        } else if style != STYLE_MONOSPACED && in_code_block {
            match run_formatted(fragment, run, at_line_start, list_number, last_indent) {
                Some((t, n, l)) => Some((seq!['`', '`', '`', '\n'] + t, false, n, l)),
                None => None,
            }
        } else if in_code_block {
            Some((fragment, in_code_block, list_number, last_indent))
        } else {
            match run_formatted(fragment, run, at_line_start, list_number, last_indent) {
                Some((t, n, l)) => Some((t, in_code_block, n, l)),
                None => None,
            }
        }
    }
}

fn style_type(run: &ANAttributeRun) -> (s: i32)
    ensures
        s == style_of(run.deep_view()),
{
    match &run.paragraph_style {
        Some(ps) => match ps.style_type {
            Some(s) => s,
            None => STYLE_DEFAULT,
        },
        None => STYLE_DEFAULT,
    }
}

fn indent_amount(run: &ANAttributeRun) -> (i: i32)
    ensures
        i == indent_of(run.deep_view()),
{
    match &run.paragraph_style {
        Some(ps) => match ps.indent_amount {
            Some(i) => i,
            None => 0,
        },
        None => 0,
    }
}

fn blockquote(run: &ANAttributeRun) -> (b: i32)
    ensures
        b == blockquote_of(run.deep_view()),
{
    match &run.paragraph_style {
        Some(ps) => match ps.blockquote {
            Some(b) => b,
            None => 0,
        },
        None => 0,
    }
}

fn checklist_done(run: &ANAttributeRun) -> (d: i32)
    ensures
        d == done_of(run.deep_view()),
{
    match &run.paragraph_style {
        Some(ps) => match &ps.checklist {
            Some(c) => match c.done {
                Some(d) => d,
                None => 0,
            },
            None => 0,
        },
        None => 0,
    }
}

fn wrap_chars(mark: &Vec<char>, text: &Vec<char>) -> (r: Vec<char>)
    ensures
        r@ == wrapped(mark@, text@),
{
    let mut r: Vec<char> = Vec::new();
    push_all(&mut r, mark);
    push_all(&mut r, text);
    push_all(&mut r, mark);
    proof {
        assert(r@ =~= wrapped(mark@, text@));
    }
    r
}

fn link_is_external(link: &Vec<char>) -> (b: bool)
    ensures
        b == is_external_link(link@),
{
    let scheme = chars_of("applenotes:");
    !crate::text::starts_with(link, &scheme)
}

fn inline_marks(fragment: &Vec<char>, run: &ANAttributeRun) -> (r: Vec<char>)
    ensures
        r@ == inline_marked(fragment@, run.deep_view()),
{
    let weight = match run.font_weight {
        Some(w) => w,
        None => 0,
    };
    let strikethrough = match run.strikethrough {
        Some(s) => s,
        None => 0,
    };
    let weighted = if weight == FONT_WEIGHT_BOLD {
        wrap_chars(&vec!['*', '*'], fragment)
    } else if weight == FONT_WEIGHT_ITALIC {
        wrap_chars(&vec!['*'], fragment)
    } else if weight == FONT_WEIGHT_BOLD_ITALIC {
        wrap_chars(&vec!['*', '*', '*'], fragment)
    } else {
        let mut copy: Vec<char> = Vec::new();
        push_all(&mut copy, fragment);
        proof {
            assert(copy@ =~= fragment@);
        }
        copy
    };
    let struck = if strikethrough != 0 {
        wrap_chars(&vec!['~', '~'], &weighted)
    } else {
        weighted
    };
    proof {
        let m = run.deep_view();
        assert(weight == weight_of(m));
        assert(strikethrough == strikethrough_of(m));
        let w = if weight_of(m) == FONT_WEIGHT_BOLD {
            wrapped(seq!['*', '*'], fragment@)
        } else if weight_of(m) == FONT_WEIGHT_ITALIC {
            wrapped(seq!['*'], fragment@)
        } else if weight_of(m) == FONT_WEIGHT_BOLD_ITALIC {
            wrapped(seq!['*', '*', '*'], fragment@)
        } else {
            fragment@
        };
        assert(weighted@ == w);
    }
    match &run.link {
        Some(link) => {
            let target = chars_of(link.as_str());
            if link_is_external(&target) && !chars_equal(&target, &struck) {
                let mut r: Vec<char> = vec!['['];
                push_all(&mut r, &struck);
                push_all(&mut r, &vec![']', '(']);
                push_all(&mut r, &target);
                r.push(')');
                proof {
                    assert(r@ =~= seq!['['] + struck@ + seq![']', '('] + target@ + seq![')']);
                }
                r
            } else {
                struck
            }
        },
        None => struck,
    }
}

fn tab_chars(n: usize) -> (r: Vec<char>)
    ensures
        r@ == tabs(n as nat),
{
    let mut r: Vec<char> = Vec::new();
    let mut i: usize = 0;
    while i < n
        invariant
            i <= n,
            r@ == tabs(i as nat),
        decreases n - i,
    {
        r.push('\t');
        i = i + 1;
        proof {
            assert(r@ =~= tabs(i as nat));
        }
    }
    r
}

/// Renders one attribute run's fragment with its inline marks and, at the
/// start of a line, its paragraph style (heading, list item, checkbox,
/// block quote); keeps the numbered-list counter up to date.
pub fn format_run(
    fragment: &str,
    run: &ANAttributeRun,
    at_line_start: bool,
    _in_code_block: &mut bool,
    list_number: &mut i32,
    last_list_indent: &mut i32,
) -> (s: String)
    requires
        run_formatted(fragment@, run.deep_view(), at_line_start, *old(list_number), *old(last_list_indent)) is Some,
    ensures
        run_formatted(fragment@, run.deep_view(), at_line_start, *old(list_number), *old(last_list_indent))
            == Some((s@, *final(list_number), *final(last_list_indent))),
        *final(_in_code_block) == *old(_in_code_block),
{
    let frag = chars_of(fragment);
    let r = format_run_chars(&frag, run, at_line_start, list_number, last_list_indent);
    string_from_chars(&r)
}

fn format_run_chars(
    fragment: &Vec<char>,
    run: &ANAttributeRun,
    at_line_start: bool,
    list_number: &mut i32,
    last_list_indent: &mut i32,
) -> (r: Vec<char>)
    requires
        run_formatted(fragment@, run.deep_view(), at_line_start, *old(list_number), *old(last_list_indent)) is Some,
    ensures
        run_formatted(fragment@, run.deep_view(), at_line_start, *old(list_number), *old(last_list_indent))
            == Some((r@, *final(list_number), *final(last_list_indent))),
{
    if is_blank(fragment) {
        let mut copy: Vec<char> = Vec::new();
        push_all(&mut copy, fragment);
        proof {
            assert(copy@ =~= fragment@);
        }
        return copy;
    }
    let text = inline_marks(fragment, run);
    if !at_line_start {
        return text;
    }
    let style = style_type(run);
    let indent = indent_amount(run);
    let lead = tab_chars(indent as usize);
    let bq: Vec<char> = if blockquote(run) > 0 { vec!['>', ' '] } else { Vec::new() };
    if style != STYLE_NUMBERED_LIST || indent != *last_list_indent {
        if style == STYLE_NUMBERED_LIST {
            *list_number = 0;
        }
        *last_list_indent = indent;
    }
    let mut r: Vec<char> = Vec::new();
    push_all(&mut r, &bq);
    if style == STYLE_TITLE {
        push_all(&mut r, &vec!['#', ' ']);
    } else if style == STYLE_HEADING {
        push_all(&mut r, &vec!['#', '#', ' ']);
    } else if style == STYLE_SUBHEADING {
        push_all(&mut r, &vec!['#', '#', '#', ' ']);
    } else if style == STYLE_DOTTED_LIST || style == STYLE_DASHED_LIST {
        push_all(&mut r, &lead);
        push_all(&mut r, &vec!['-', ' ']);
    } else if style == STYLE_NUMBERED_LIST {
        *list_number = *list_number + 1;
        push_all(&mut r, &lead);
        push_signed_zero_padded(&mut r, *list_number as i64, 0);
        push_all(&mut r, &vec!['.', ' ']);
    } else if style == STYLE_CHECKBOX {
        push_all(&mut r, &lead);
        push_all(&mut r, &vec!['-', ' ']);
        if checklist_done(run) != 0 {
            push_all(&mut r, &vec!['[', 'x', ']', ' ']);
        } else {
            push_all(&mut r, &vec!['[', ' ', ']', ' ']);
        }
    }
    push_all(&mut r, &text);
    proof {
        let m = run.deep_view();
        let bqs = if blockquote_of(m) > 0 { seq!['>', ' '] } else { Seq::<char>::empty() };
        assert(bq@ == bqs);
        if style == STYLE_CHECKBOX {
            if done_of(m) != 0 {
                assert(r@ =~= bqs + lead@ + seq!['-', ' '] + seq!['[', 'x', ']'] + seq![' '] + text@);
            } else {
                assert(r@ =~= bqs + lead@ + seq!['-', ' '] + seq!['[', ' ', ']'] + seq![' '] + text@);
            }
        } else if style == STYLE_NUMBERED_LIST {
            assert(r@ =~= bqs + lead@ + signed_zero_padded(*list_number as int, 0) + seq!['.', ' '] + text@);
        } else if style == STYLE_DOTTED_LIST || style == STYLE_DASHED_LIST {
            assert(r@ =~= bqs + lead@ + seq!['-', ' '] + text@);
        } else if style == STYLE_TITLE {
            assert(r@ =~= bqs + seq!['#', ' '] + text@);
        } else if style == STYLE_HEADING {
            assert(r@ =~= bqs + seq!['#', '#', ' '] + text@);
        } else if style == STYLE_SUBHEADING {
            assert(r@ =~= bqs + seq!['#', '#', '#', ' '] + text@);
        } else {
            assert(r@ =~= bqs + text@);
        }
    }
    r
}


/// Renders one attribute run's fragment in the context of the runs before
/// it: attachments become links or vanish, monospaced runs open and close
/// code blocks (whose contents stay unformatted), other runs go through
/// `format_run`.
pub fn format_run_with_context(
    fragment: &str,
    run: &ANAttributeRun,
    at_line_start: bool,
    in_code_block: &mut bool,
    list_number: &mut i32,
    last_list_indent: &mut i32,
) -> (s: String)
    requires
        run_in_context(fragment@, run.deep_view(), at_line_start, *old(in_code_block), *old(list_number), *old(last_list_indent)) is Some,
    ensures
        run_in_context(fragment@, run.deep_view(), at_line_start, *old(in_code_block), *old(list_number), *old(last_list_indent))
            == Some((s@, *final(in_code_block), *final(list_number), *final(last_list_indent))),
{
    let frag = chars_of(fragment);
    let r = format_in_context(&frag, run, at_line_start, in_code_block, list_number, last_list_indent);
    string_from_chars(&r)
}

fn format_in_context(
    fragment: &Vec<char>,
    run: &ANAttributeRun,
    at_line_start: bool,
    in_code_block: &mut bool,
    list_number: &mut i32,
    last_list_indent: &mut i32,
) -> (r: Vec<char>)
    requires
        run_in_context(fragment@, run.deep_view(), at_line_start, *old(in_code_block), *old(list_number), *old(last_list_indent)) is Some,
    ensures
        run_in_context(fragment@, run.deep_view(), at_line_start, *old(in_code_block), *old(list_number), *old(last_list_indent))
            == Some((r@, *final(in_code_block), *final(list_number), *final(last_list_indent))),
{
    if run.attachment_info.is_some() {
        if let Some(link) = &run.link {
            let target = chars_of(link.as_str());
            if link_is_external(&target) {
                let mut r = chars_of("[attachment](");
                push_all(&mut r, &target);
                r.push(')');
                return r;
            }
        }
        return Vec::new();
    }
    let style = style_type(run);
    if style == STYLE_MONOSPACED && !*in_code_block {
        *in_code_block = true;
        let mut r: Vec<char> = vec!['\n', '`', '`', '`', '\n'];
        push_all(&mut r, fragment);
        return r;
    } else if style != STYLE_MONOSPACED && *in_code_block {
        *in_code_block = false;
        let mut r: Vec<char> = vec!['`', '`', '`', '\n'];
        let rest = format_run_chars(fragment, run, at_line_start, list_number, last_list_indent);
        push_all(&mut r, &rest);
        return r;
    }
    if *in_code_block {
        let mut copy: Vec<char> = Vec::new();
        push_all(&mut copy, fragment);
        proof {
            assert(copy@ =~= fragment@);
        }
        return copy;
    }
    format_run_chars(fragment, run, at_line_start, list_number, last_list_indent)
}

/// State of the Markdown conversion between attribute runs.
pub struct MarkdownState {
    /// Markdown produced so far.
    pub out: Seq<char>,
    /// Characters of the note text consumed so far.
    pub offset: int,
    /// A code block is open.
    pub in_code_block: bool,
    /// Counter of the current numbered list.
    pub list_number: i32,
    /// Indentation of the last list item (-1 before any).
    pub last_indent: i32,
    /// A run that overruns the text has ended the conversion.
    pub stopped: bool,
}

/// Length a run covers (0 when absent).
pub open spec fn length_of(run: AttributeRunModel) -> i32 {
    match run.length {
        Some(l) => l,
        None => 0,
    }
}

/// The state after the first `k` attribute runs of `text` have been
/// converted; `None` where the conversion has no defined outcome (a
/// negative run length taken as an unsigned count overflows when added to
/// an offset at least its size, or a run that panics in formatting). A run
/// that reaches past the text, a negative one included otherwise, ends the
/// conversion.
pub open spec fn markdown_after(text: Seq<char>, runs: Seq<AttributeRunModel>, k: nat) -> Option<MarkdownState>
    decreases k,
{
    if k == 0 {
        Some(MarkdownState { out: Seq::empty(), offset: 0, in_code_block: false, list_number: 0i32, last_indent: -1i32, stopped: false })
    } else {
        match markdown_after(text, runs, (k - 1) as nat) {
            None => None,
            Some(st) => if st.stopped || k > runs.len() {
                Some(st)
            } else {
                let run = runs[k - 1];
                let len = length_of(run);
                if len < 0 && st.offset >= -len {
                    None
                } else if len < 0 || st.offset + len > text.len() {
                    Some(MarkdownState { stopped: true, ..st })
                } else {
                    let fragment = text.subrange(st.offset, st.offset + len);
                    let at_line_start = st.out.len() == 0 || st.out.last() == '\n';
                    match run_in_context(fragment, run, at_line_start, st.in_code_block, st.list_number, st.last_indent) {
                        None => None,
                        Some((piece, code, number, last)) => Some(MarkdownState {
                            out: st.out + piece,
                            offset: st.offset + len,
                            in_code_block: code,
                            list_number: number,
                            last_indent: last,
                            stopped: false,
                        }),
                    }
                }
            },
        }
    }
}

/// The Markdown of a note: empty for an empty text, the plain text when
/// there are no attribute runs, and otherwise the runs converted in order
/// (an open code block closed at the end) with surrounding whitespace
/// trimmed. `None` where the conversion has no defined outcome.
pub open spec fn note_markdown(note: NoteModel) -> Option<Seq<char>> {
    let text = match note.note_text {
        Some(t) => t,
        None => Seq::empty(),
    };
    if text.len() == 0 {
        Some(Seq::empty())
    } else if note.attribute_run.len() == 0 {
        Some(text)
    } else {
        match markdown_after(text, note.attribute_run, note.attribute_run.len()) {
            None => None,
            Some(st) => Some(trim(if st.in_code_block {
                st.out + seq!['`', '`', '`', '\n']
            } else {
                st.out
            })),
        }
    }
}

/// `note_to_markdown` has a defined outcome on `note`.
pub fn markdown_is_defined(note: &ANNote) -> (b: bool)
    ensures
        b == (note_markdown(note.deep_view()) is Some),
{
    let mut probe: Vec<char> = Vec::new();
    convert_note(note, false, &mut probe)
}

/// Converts a decoded note to Markdown text.
pub fn note_to_markdown(note: &ANNote) -> (s: String)
    requires
        note_markdown(note.deep_view()) is Some,
    ensures
        note_markdown(note.deep_view()) == Some(s@),
{
    let mut out: Vec<char> = Vec::new();
    convert_note(note, true, &mut out);
    string_from_chars(&out)
}

/// Runs the conversion; with `produce` set, writes the Markdown to `out`.
/// Returns whether the conversion is defined.
fn convert_note(note: &ANNote, produce: bool, out: &mut Vec<char>) -> (b: bool)
    ensures
        b == (note_markdown(note.deep_view()) is Some),
        produce && b ==> note_markdown(note.deep_view()) == Some(final(out)@),
{
    let text: Vec<char> = match &note.note_text {
        Some(t) => chars_of(t.as_str()),
        None => Vec::new(),
    };
    let ghost model = note.deep_view();
    proof {
        let t = match model.note_text {
            Some(t) => t,
            None => Seq::<char>::empty(),
        };
        assert(text@ == t);
    }
    if text.len() == 0 {
        *out = Vec::new();
        return true;
    }
    if note.attribute_run.len() == 0 {
        *out = text;
        return true;
    }
    let runs = &note.attribute_run;
    let mut result: Vec<char> = Vec::new();
    let mut offset: usize = 0;
    let mut in_code_block = false;
    let mut list_number: i32 = 0;
    let mut last_list_indent: i32 = -1;
    let mut stopped = false;
    let mut k: usize = 0;
    while k < runs.len() && !stopped
        invariant
            k <= runs@.len(),
            model == note.deep_view(),
            text@.len() > 0,
            text@ == match model.note_text {
                Some(t) => t,
                None => Seq::<char>::empty(),
            },
            runs@.len() == model.attribute_run.len(),
            forall|i: int| 0 <= i < runs@.len() ==> #[trigger] runs@[i].deep_view() == model.attribute_run[i],
            offset <= text@.len(),
            markdown_after(text@, model.attribute_run, k as nat) == Some(MarkdownState {
                out: result@,
                offset: offset as int,
                in_code_block,
                list_number,
                last_indent: last_list_indent,
                stopped,
            }),
        decreases runs@.len() - k,
    {
        let run = &runs[k];
        let len = match run.length {
            Some(l) => l,
            None => 0,
        };
        proof {
            assert(run.deep_view() == model.attribute_run[k as int]);
        }
        if len < 0 && offset >= (-(len as i64)) as usize {
            proof {
                lemma_markdown_settled(text@, model.attribute_run, (k + 1) as nat, model.attribute_run.len());
            }
            return false;
        }
        if len < 0 || len as usize > text.len() - offset {
            stopped = true;
        } else {
            let end = offset + len as usize;
            let fragment = slice_chars(&text, offset, end);
            let at_line_start = result.len() == 0 || result[result.len() - 1] == '\n';
            proof {
                if result@.len() > 0 {
                    assert(result@.last() == result@[result@.len() - 1]);
                }
            }
            if !context_is_defined(&fragment, run, at_line_start, in_code_block, list_number, last_list_indent) {
                proof {
                    lemma_markdown_settled(text@, model.attribute_run, (k + 1) as nat, model.attribute_run.len());
                }
                return false;
            }
            let piece = format_in_context(&fragment, run, at_line_start, &mut in_code_block, &mut list_number, &mut last_list_indent);
            push_all(&mut result, &piece);
            offset = end;
        }
        k = k + 1;
    }
    proof {
        lemma_markdown_settled(text@, model.attribute_run, k as nat, model.attribute_run.len());
    }
    if in_code_block {
        push_all(&mut result, &vec!['`', '`', '`', '\n']);
    }
    if produce {
        *out = trim_chars(&result);
    }
    true
}

/// Law: outside a code block, a run that is neither an attachment nor
/// monospaced renders in context exactly as `format_run` renders it, and
/// leaves the code block closed; the one rendering is defined exactly where
/// the other is.
pub proof fn lemma_context_agrees_outside_code(
    fragment: Seq<char>,
    run: AttributeRunModel,
    at_line_start: bool,
    list_number: i32,
    last_indent: i32,
)
    requires
        run.attachment_info is None,
        style_of(run) != STYLE_MONOSPACED,
    ensures
        run_in_context(fragment, run, at_line_start, false, list_number, last_indent) == match run_formatted(
            fragment,
            run,
            at_line_start,
            list_number,
            last_indent,
        ) {
            Some((t, n, l)) => Some((t, false, n, l)),
            None => None,
        },
{
}

/// Law: a checkbox item at the start of a line renders as "- [x] " when
/// its checklist's done flag is present and non-zero and as "- [ ] "
/// otherwise, after the block-quote mark and one tab per indentation level
/// and before the text with its inline marks; the list counter is kept and
/// the indentation remembered.
pub proof fn lemma_checkbox_rendering(fragment: Seq<char>, run: AttributeRunModel, list_number: i32, last_indent: i32)
    requires
        !all_whitespace(fragment),
        run.paragraph_style is Some,
        run.paragraph_style->0.style_type == Some(103i32),
        match run.paragraph_style->0.indent_amount {
            Some(i) => i >= 0,
            None => true,
        },
    ensures
        ({
            let ps = run.paragraph_style->0;
            let indent: i32 = match ps.indent_amount {
                Some(i) => i,
                None => 0i32,
            };
            let done = match ps.checklist {
                Some(c) => match c.done {
                    Some(d) => d != 0,
                    None => false,
                },
                None => false,
            };
            let quote = match ps.blockquote {
                Some(b) => if b > 0 { seq!['>', ' '] } else { Seq::<char>::empty() },
                None => Seq::<char>::empty(),
            };
            let mark = if done {
                seq!['-', ' ', '[', 'x', ']', ' ']
            } else {
                seq!['-', ' ', '[', ' ', ']', ' ']
            };
            run_formatted(fragment, run, true, list_number, last_indent) == Some(
                (
                    quote + Seq::new(indent as nat, |k: int| '\t') + mark + inline_marked(fragment, run),
                    list_number,
                    indent,
                ),
            )
        }),
{
    let ps = run.paragraph_style->0;
    let indent = indent_of(run);
    let text = inline_marked(fragment, run);
    let bq = if blockquote_of(run) > 0 { seq!['>', ' '] } else { Seq::<char>::empty() };
    let check = if done_of(run) == 0 { seq!['[', ' ', ']'] } else { seq!['[', 'x', ']'] };
    assert(tabs(indent as nat) =~= Seq::new(indent as nat, |k: int| '\t'));
    assert(bq + tabs(indent as nat) + seq!['-', ' '] + check + seq![' '] + text =~= bq + tabs(indent as nat) + (
    seq!['-', ' '] + check + seq![' ']) + text);
    assert(seq!['-', ' '] + seq!['[', 'x', ']'] + seq![' '] =~= seq!['-', ' ', '[', 'x', ']', ' ']);
    assert(seq!['-', ' '] + seq!['[', ' ', ']'] + seq![' '] =~= seq!['-', ' ', '[', ' ', ']', ' ']);
}

/// Law: the inline marks of a run: a font weight of 1, 2 or 3 wraps the
/// text in "**", "*" or "***"; a present, non-zero strikethrough then wraps
/// it in "~~"; and a link that does not start with "applenotes:" and is not
/// the marked text itself turns it into "[marked](link)".
pub proof fn lemma_inline_marks(text: Seq<char>, run: AttributeRunModel)
    ensures
        ({
            let weighted = if run.font_weight == Some(1i32) {
                seq!['*', '*'] + text + seq!['*', '*']
            } else if run.font_weight == Some(2i32) {
                seq!['*'] + text + seq!['*']
            } else if run.font_weight == Some(3i32) {
                seq!['*', '*', '*'] + text + seq!['*', '*', '*']
            } else {
                text
            };
            let struck = match run.strikethrough {
                Some(x) => if x != 0 { seq!['~', '~'] + weighted + seq!['~', '~'] } else { weighted },
                None => weighted,
            };
            inline_marked(text, run) == match run.link {
                Some(l) => if !(l.len() >= 11 && l.take(11) == seq!['a', 'p', 'p', 'l', 'e', 'n', 'o', 't', 'e', 's', ':'])
                    && l != struck {
                    seq!['['] + struck + seq![']', '('] + l + seq![')']
                } else {
                    struck
                },
                None => struck,
            }
        }),
{
    reveal_strlit("applenotes:");
    assert("applenotes:"@ =~= seq!['a', 'p', 'p', 'l', 'e', 'n', 'o', 't', 'e', 's', ':']);
}

/// Law: a non-blank run at the start of a line with a title, heading,
/// subheading, bulleted or dashed style renders as the block-quote mark,
/// then "# ", "## ", "### " or (after one tab per indentation level) "- ",
/// then the text with its inline marks; the list counter is kept and the
/// indentation remembered.
pub proof fn lemma_paragraph_prefix(fragment: Seq<char>, run: AttributeRunModel, list_number: i32, last_indent: i32)
    requires
        !all_whitespace(fragment),
        run.paragraph_style is Some,
        match run.paragraph_style->0.style_type {
            Some(t) => t == 0 || t == 1 || t == 2 || t == 100 || t == 101,
            None => false,
        },
        match run.paragraph_style->0.indent_amount {
            Some(i) => i >= 0,
            None => true,
        },
    ensures
        ({
            let ps = run.paragraph_style->0;
            let t = ps.style_type->0;
            let indent: i32 = match ps.indent_amount {
                Some(i) => i,
                None => 0i32,
            };
            let quote = match ps.blockquote {
                Some(b) => if b > 0 { seq!['>', ' '] } else { Seq::<char>::empty() },
                None => Seq::<char>::empty(),
            };
            let prefix = if t == 0 {
                seq!['#', ' ']
            } else if t == 1 {
                seq!['#', '#', ' ']
            } else if t == 2 {
                seq!['#', '#', '#', ' ']
            } else {
                Seq::new(indent as nat, |k: int| '\t') + seq!['-', ' ']
            };
            run_formatted(fragment, run, true, list_number, last_indent) == Some(
                (quote + prefix + inline_marked(fragment, run), list_number, indent),
            )
        }),
{
    let indent = indent_of(run);
    assert(tabs(indent as nat) =~= Seq::new(indent as nat, |k: int| '\t'));
    let bq = if blockquote_of(run) > 0 { seq!['>', ' '] } else { Seq::<char>::empty() };
    let text = inline_marked(fragment, run);
    assert(bq + tabs(indent as nat) + seq!['-', ' '] + text =~= bq + (tabs(indent as nat) + seq!['-', ' ']) + text);
}

/// Law: numbered items count from 1: a non-blank numbered run at the start
/// of a line continues the count when its indentation is that of the last
/// list item and restarts it otherwise, and renders as the block-quote
/// mark, one tab per indentation level, the new count, ". " and the text
/// with its inline marks.
pub proof fn lemma_numbered_item(fragment: Seq<char>, run: AttributeRunModel, list_number: i32, last_indent: i32)
    requires
        !all_whitespace(fragment),
        run.paragraph_style is Some,
        run.paragraph_style->0.style_type == Some(102i32),
        match run.paragraph_style->0.indent_amount {
            Some(i) => i >= 0,
            None => true,
        },
        0 <= list_number < i32::MAX,
    ensures
        ({
            let ps = run.paragraph_style->0;
            let indent: i32 = match ps.indent_amount {
                Some(i) => i,
                None => 0i32,
            };
            let quote = match ps.blockquote {
                Some(b) => if b > 0 { seq!['>', ' '] } else { Seq::<char>::empty() },
                None => Seq::<char>::empty(),
            };
            let count: int = if indent == last_indent { list_number + 1 } else { 1 };
            run_formatted(fragment, run, true, list_number, last_indent) == Some(
                (
                    quote + Seq::new(indent as nat, |k: int| '\t') + decimal(count as nat) + seq!['.', ' ']
                        + inline_marked(fragment, run),
                    count as i32,
                    indent,
                ),
            )
        }),
{
    let indent = indent_of(run);
    assert(tabs(indent as nat) =~= Seq::new(indent as nat, |k: int| '\t'));
}

/// Law: an attachment run renders as "[attachment](link)" when it has a
/// link that does not start with "applenotes:", and as nothing otherwise,
/// whatever its text; the code-block and list state are kept.
pub proof fn lemma_attachment_rendering(
    fragment: Seq<char>,
    run: AttributeRunModel,
    at_line_start: bool,
    in_code_block: bool,
    list_number: i32,
    last_indent: i32,
)
    requires
        run.attachment_info is Some,
    ensures
        run_in_context(fragment, run, at_line_start, in_code_block, list_number, last_indent) == Some(
            (
                match run.link {
                    Some(l) => if !(l.len() >= 11 && l.take(11) == seq![
                        'a',
                        'p',
                        'p',
                        'l',
                        'e',
                        'n',
                        'o',
                        't',
                        'e',
                        's',
                        ':',
                    ]) {
                        seq!['[', 'a', 't', 't', 'a', 'c', 'h', 'm', 'e', 'n', 't', ']', '('] + l + seq![')']
                    } else {
                        Seq::<char>::empty()
                    },
                    None => Seq::<char>::empty(),
                },
                in_code_block,
                list_number,
                last_indent,
            ),
        ),
{
    reveal_strlit("applenotes:");
    reveal_strlit("[attachment](");
    assert("applenotes:"@ =~= seq!['a', 'p', 'p', 'l', 'e', 'n', 'o', 't', 'e', 's', ':']);
    assert("[attachment]("@ =~= seq!['[', 'a', 't', 't', 'a', 'c', 'h', 'm', 'e', 'n', 't', ']', '(']);
}

/// Law: a monospaced run that is not an attachment opens a code block
/// with "\n```\n" before its text when none is open, and is copied
/// unchanged when one is; either way the block is open afterwards and the
/// list state is kept.
pub proof fn lemma_code_block_content(
    fragment: Seq<char>,
    run: AttributeRunModel,
    at_line_start: bool,
    in_code_block: bool,
    list_number: i32,
    last_indent: i32,
)
    requires
        run.attachment_info is None,
        run.paragraph_style is Some,
        run.paragraph_style->0.style_type == Some(4i32),
    ensures
        run_in_context(fragment, run, at_line_start, in_code_block, list_number, last_indent) == Some(
            (
                if in_code_block { fragment } else { seq!['\n', '`', '`', '`', '\n'] + fragment },
                true,
                list_number,
                last_indent,
            ),
        ),
{
}

/// Law: a run that is neither an attachment nor monospaced, met inside a
/// code block, closes the block with a fence line and is then rendered
/// exactly as `format_run` renders it, with the same line-start flag and
/// list state; the one rendering is defined exactly where the other is.
pub proof fn lemma_context_closes_code_block(
    fragment: Seq<char>,
    run: AttributeRunModel,
    at_line_start: bool,
    list_number: i32,
    last_indent: i32,
)
    requires
        run.attachment_info is None,
        match run.paragraph_style {
            Some(ps) => ps.style_type != Some(4i32),
            None => true,
        },
    ensures
        run_in_context(fragment, run, at_line_start, true, list_number, last_indent) == match run_formatted(
            fragment,
            run,
            at_line_start,
            list_number,
            last_indent,
        ) {
            Some((t, n, l)) => Some((seq!['`', '`', '`', '\n'] + t, false, n, l)),
            None => None,
        },
{
}

/// Law: the Markdown of a note that has attribute runs has no whitespace at
/// either end.
pub proof fn lemma_markdown_trimmed(note: NoteModel)
    requires
        note.attribute_run.len() > 0,
        note_markdown(note) is Some,
    ensures
        trim(note_markdown(note)->0) == note_markdown(note)->0,
{
    let text = match note.note_text {
        Some(t) => t,
        None => Seq::empty(),
    };
    if text.len() == 0 {
        assert(trim(Seq::<char>::empty()) =~= Seq::<char>::empty());
    } else {
        let st = markdown_after(text, note.attribute_run, note.attribute_run.len())->0;
        lemma_trim_idempotent(if st.in_code_block {
            st.out + seq!['`', '`', '`', '\n']
        } else {
            st.out
        });
    }
}

/// Once the conversion has panicked or stopped, later runs change nothing.
proof fn lemma_markdown_settled(text: Seq<char>, runs: Seq<AttributeRunModel>, k: nat, n: nat)
    requires
        k <= n,
    ensures
        markdown_after(text, runs, k) is None ==> markdown_after(text, runs, n) is None,
        markdown_after(text, runs, k) matches Some(st) && (st.stopped || k == n) ==> markdown_after(text, runs, n)
            == markdown_after(text, runs, k),
    decreases n - k,
{
    if k < n {
        lemma_markdown_settled(text, runs, k, (n - 1) as nat);
    }
}

/// The characters `text[from..to]`.
fn slice_chars(text: &Vec<char>, from: usize, to: usize) -> (r: Vec<char>)
    requires
        from <= to <= text@.len(),
    ensures
        r@ == text@.subrange(from as int, to as int),
{
    let mut r: Vec<char> = Vec::new();
    let mut i = from;
    while i < to
        invariant
            from <= i <= to <= text@.len(),
            r@ == text@.subrange(from as int, i as int),
        decreases to - i,
    {
        r.push(text[i]);
        i = i + 1;
        proof {
            assert(r@ =~= text@.subrange(from as int, i as int));
        }
    }
    r
}

/// `format_run` is defined for these arguments.
fn run_is_defined(fragment: &Vec<char>, run: &ANAttributeRun, at_line_start: bool, list_number: i32, last_indent: i32) -> (b: bool)
    ensures
        b == (run_formatted(fragment@, run.deep_view(), at_line_start, list_number, last_indent) is Some),
{
    if is_blank(fragment) || !at_line_start {
        return true;
    }
    let indent = indent_amount(run);
    if indent < 0 {
        return false;
    }
    let style = style_type(run);
    let number = if style != STYLE_NUMBERED_LIST || indent != last_indent {
        if style == STYLE_NUMBERED_LIST { 0 } else { list_number }
    } else {
        list_number
    };
    !(style == STYLE_NUMBERED_LIST && number == i32::MAX)
}

/// `format_run_with_context` is defined for these arguments.
fn context_is_defined(
    fragment: &Vec<char>,
    run: &ANAttributeRun,
    at_line_start: bool,
    in_code_block: bool,
    list_number: i32,
    last_indent: i32,
) -> (b: bool)
    ensures
        b == (run_in_context(fragment@, run.deep_view(), at_line_start, in_code_block, list_number, last_indent) is Some),
{
    if run.attachment_info.is_some() {
        return true;
    }
    let style = style_type(run);
    if style == STYLE_MONOSPACED && !in_code_block {
        true
    } else if style != STYLE_MONOSPACED && in_code_block {
        run_is_defined(fragment, run, at_line_start, list_number, last_indent)
    } else if in_code_block {
        true
    } else {
        run_is_defined(fragment, run, at_line_start, list_number, last_indent)
    }
}

} // verus!
