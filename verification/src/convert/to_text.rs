//! Convert to plain text.

use vstd::prelude::*;
use vstd::utf8::*;
use crate::convert::{ConvertError, ConvertErrorView, ConvertReport, ConvertReportView};
use crate::convert::textops::{join, joined, trim, trimmed};
use crate::convert::xml_text::{docx_paragraph_texts, paragraph_texts_outcome};
use crate::engine::ir::FormatId;
use crate::formats::md_events::{MdItemView, MdKind, MdTag, md_event_tags, md_events, md_items_view, md_offset_events, md_tags, tag_at};
use crate::text::{decode_utf8_bytes, prefixed, str_to_string, string_push, string_push_str, utf8, utf8_error_text, utf8_lossy, utf8_lossy_text};

verus! {

/// The text one Markdown event contributes to plain text.
pub open spec fn plain_piece(it: MdItemView, t: MdTag) -> Seq<char> {
    if it.kind == MdKind::Text || it.kind == MdKind::Code {
        it.text
    } else if it.kind == MdKind::SoftBreak || it.kind == MdKind::HardBreak {
        seq!['\n']
    } else if it.kind == MdKind::End && (t == MdTag::Paragraph || t is Heading || t == MdTag::Item) {
        seq!['\n']
    } else {
        Seq::empty()
    }
}

/// The text of the first `n` events.
pub open spec fn plain_of(items: Seq<MdItemView>, tags: Seq<MdTag>, n: nat) -> Seq<char>
    decreases n,
{
    if n == 0 {
        Seq::empty()
    } else {
        plain_of(items, tags, (n - 1) as nat) + plain_piece(items[n - 1], tag_at(tags, n - 1))
    }
}

/// What stripping Markdown to plain text gives: the text of the prose, code and line
/// structure, trimmed, with one final newline; or why the input could not be read.
pub open spec fn markdown_text(src: Seq<u8>) -> Result<Seq<char>, ConvertErrorView> {
    if valid_utf8(src) {
        let s = decode_utf8(src);
        let items = md_offset_events(s);
        Ok(trimmed(plain_of(items, md_event_tags(s), items.len())) + seq!['\n'])
    } else {
        Err(ConvertErrorView::Failed("not UTF-8: "@ + utf8_error_text(src)))
    }
}

/// Strip Markdown to plain text.
pub fn markdown_to_text(src: &[u8]) -> (r: Result<String, ConvertError>)
    ensures
        match r {
            Ok(s) => markdown_text(src@) == Ok::<Seq<char>, ConvertErrorView>(s@),
            Err(e) => markdown_text(src@) == Err::<Seq<char>, ConvertErrorView>(e@),
        },
{
    let s = match decode_utf8_bytes(src) {
        Ok(s) => s,
        Err(m) => {
            return Err(ConvertError::Failed(prefixed("not UTF-8: ", m.as_str())));
        },
    };
    let items = md_events(s.as_str());
    let tags = md_tags(s.as_str());
    let ghost iv = md_items_view(items@);
    let mut out = String::new();
    let mut i: usize = 0;
    while i < items.len()
        invariant
            i <= items@.len(),
            iv == md_items_view(items@),
            out@ == plain_of(iv, tags@, i as nat),
        decreases items@.len() - i,
    {
        let it = &items[i];
        assert(iv[i as int] == it@);
        let t = if i < tags.len() { tags[i] } else { MdTag::NoTag };
        match it.kind {
            MdKind::Text | MdKind::Code => {
                string_push_str(&mut out, it.text.as_str());
            },
            MdKind::SoftBreak | MdKind::HardBreak => {
                string_push(&mut out, '\n');
            },
            MdKind::End => {
                let nl = match t {
                    MdTag::Paragraph | MdTag::Heading(_) | MdTag::Item => true,
                    _ => false,
                };
                if nl {
                    string_push(&mut out, '\n');
                } else {
                    assert(out@ =~= plain_of(iv, tags@, (i + 1) as nat));
                }
            },
            _ => {
                assert(out@ =~= plain_of(iv, tags@, (i + 1) as nat));
            },
        }
        i = i + 1;
    }
    let mut r = trim(out.as_str());
    let ghost t = r@;
    string_push(&mut r, '\n');
    assert(r@ =~= t + seq!['\n']);
    Ok(r)
}

/// The warning of a conversion that drops all formatting.
pub open spec fn plain_warning() -> Seq<char> {
    "all formatting and structure removed (plain-text output)"@
}

/// The report of a plain-text conversion.
pub open spec fn text_report(engine: Seq<char>, lossy: bool) -> ConvertReportView {
    ConvertReportView { engine, lossy, warnings: if lossy { seq![plain_warning()] } else { Seq::empty() } }
}

/// The text of a DOCX: its paragraphs joined by blank lines, trimmed, with one final newline.
pub open spec fn docx_text(src: Seq<u8>) -> Result<Seq<char>, ConvertErrorView> {
    match paragraph_texts_outcome(src) {
        Err(e) => Err(e),
        Ok(ps) => Ok(trimmed(joined(ps, "\n\n"@)) + seq!['\n']),
    }
}

/// What converting to plain text gives.
pub open spec fn text_conversion(from: FormatId, src: Seq<u8>) -> Result<(Seq<u8>, ConvertReportView), ConvertErrorView> {
    match from {
        FormatId::PlainText => Ok((utf8(utf8_lossy_text(src)), text_report("passthrough"@, false))),
        FormatId::Markdown => match markdown_text(src) {
            Err(e) => Err(e),
            Ok(t) => Ok((utf8(t), text_report("markdown-strip"@, true))),
        },
        FormatId::Docx => match docx_text(src) {
            Err(e) => Err(e),
            Ok(t) => Ok((utf8(t), text_report("docx-extract"@, true))),
        },
    }
}

fn text_report_of(engine: &str, lossy: bool) -> (r: ConvertReport)
    ensures
        r@ == text_report(engine@, lossy),
{
    let mut warnings: Vec<String> = Vec::new();
    if lossy {
        warnings.push(str_to_string("all formatting and structure removed (plain-text output)"));
    }
    let r = ConvertReport { engine: str_to_string(engine), lossy, warnings };
    assert(r@.warnings =~= text_report(engine@, lossy).warnings);
    r
}

/// The UTF-8 bytes of a string.
pub fn string_bytes(s: &String) -> (b: Vec<u8>)
    ensures
        b@ == utf8(s@),
{
    vstd::slice::slice_to_vec(s.as_str().as_bytes())
}

/// Convert to plain text.
pub fn convert(from: FormatId, src: &[u8]) -> (r: Result<(Vec<u8>, ConvertReport), ConvertError>)
    ensures
        crate::convert::convert_view(r) == text_conversion(from, src@),
{
    match from {
        FormatId::PlainText => {
            let text = utf8_lossy(src);
            Ok((string_bytes(&text), text_report_of("passthrough", false)))
        },
        FormatId::Markdown => match markdown_to_text(src) {
            Ok(t) => Ok((string_bytes(&t), text_report_of("markdown-strip", true))),
            Err(e) => Err(e),
        },
        FormatId::Docx => match docx_paragraph_texts(src) {
            Ok(ps) => {
                let joined_text = join(&ps, "\n\n");
                let mut t = trim(joined_text.as_str());
                let ghost t0 = t@;
                string_push(&mut t, '\n');
                assert(t@ =~= t0 + seq!['\n']);
                Ok((string_bytes(&t), text_report_of("docx-extract", true)))
            },
            Err(e) => Err(e),
        },
    }
}

/// Every soft or hard line break of the Markdown adds exactly one newline to the plain text,
/// right after the text of the events before it: the lines on either side of a break never
/// run together.
pub proof fn lemma_break_is_newline(items: Seq<MdItemView>, tags: Seq<MdTag>, n: nat)
    requires
        0 < n <= items.len(),
        items[n - 1].kind == MdKind::SoftBreak || items[n - 1].kind == MdKind::HardBreak,
    ensures
        plain_of(items, tags, n) == plain_of(items, tags, (n - 1) as nat) + seq!['\n'],
{
}

/// A text or code event contributes its text verbatim, after the text of the events before
/// it.
pub proof fn lemma_text_is_kept(items: Seq<MdItemView>, tags: Seq<MdTag>, n: nat)
    requires
        0 < n <= items.len(),
        items[n - 1].kind == MdKind::Text || items[n - 1].kind == MdKind::Code,
    ensures
        plain_of(items, tags, n) == plain_of(items, tags, (n - 1) as nat) + items[n - 1].text,
{
}

/// How many times `c` occurs in `s`.
pub open spec fn occurrences(s: Seq<char>, c: char) -> nat
    decreases s.len(),
{
    if s.len() == 0 {
        0
    } else {
        occurrences(s.drop_last(), c) + if s.last() == c { 1nat } else { 0nat }
    }
}

/// How many of the first `n` events are line breaks.
pub open spec fn break_count(items: Seq<MdItemView>, n: nat) -> nat
    decreases n,
{
    if n == 0 {
        0
    } else {
        break_count(items, (n - 1) as nat) + if items[n - 1].kind == MdKind::SoftBreak || items[n - 1].kind
            == MdKind::HardBreak {
            1nat
        } else {
            0nat
        }
    }
}

proof fn lemma_occurrences_concat(a: Seq<char>, b: Seq<char>, c: char)
    ensures
        occurrences(a + b, c) == occurrences(a, c) + occurrences(b, c),
    decreases b.len(),
{
    if b.len() == 0 {
        assert(a + b =~= a);
    } else {
        lemma_occurrences_concat(a, b.drop_last(), c);
        assert((a + b).drop_last() =~= a + b.drop_last());
        assert((a + b).last() == b.last());
    }
}

/// The plain text of the events holds at least one newline per line break among them.
pub proof fn lemma_breaks_counted(items: Seq<MdItemView>, tags: Seq<MdTag>, n: nat)
    requires
        n <= items.len(),
    ensures
        occurrences(plain_of(items, tags, n), '\n') >= break_count(items, n),
    decreases n,
{
    if n > 0 {
        lemma_breaks_counted(items, tags, (n - 1) as nat);
        let prev = plain_of(items, tags, (n - 1) as nat);
        let piece = plain_piece(items[n - 1], tag_at(tags, n - 1));
        lemma_occurrences_concat(prev, piece, '\n');
        if items[n - 1].kind == MdKind::SoftBreak || items[n - 1].kind == MdKind::HardBreak {
            assert(piece == seq!['\n']);
            assert(piece.drop_last() =~= Seq::<char>::empty());
            assert(occurrences(piece.drop_last(), '\n') == 0);
            assert(piece.last() == '\n');
            assert(occurrences(piece, '\n') == 1);
        }
    }
}

/// The end of a paragraph, heading or list item adds exactly one newline to the plain text;
/// the markup of any other start or end event adds nothing.
pub proof fn lemma_block_end_is_newline(items: Seq<MdItemView>, tags: Seq<MdTag>, n: nat)
    requires
        0 < n <= items.len(),
        items[n - 1].kind == MdKind::Start || items[n - 1].kind == MdKind::End,
    ensures
        plain_of(items, tags, n) == plain_of(items, tags, (n - 1) as nat) + if items[n - 1].kind == MdKind::End && (
        tag_at(tags, n - 1) == MdTag::Paragraph || tag_at(tags, n - 1) is Heading || tag_at(tags, n - 1) == MdTag::Item) {
            seq!['\n']
        } else {
            Seq::<char>::empty()
        },
{
}

}
