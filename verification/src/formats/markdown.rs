//! Markdown adapter. `pulldown-cmark`'s offset iterator serves purely as a *locator*: a text
//! event's range is its exact byte span in the source. Those ranges become prose spans; no
//! Markdown serializer ever runs.

use vstd::prelude::*;
use vstd::utf8::*;
use std::ops::Range;
use crate::engine::error::CoreError;
use crate::engine::ir::{
    DocMeta, Document, DocumentView, FormatId, ProseSpan, ProseSpanView, SpanAnchor, SpanAnchorView,
    detect_newline, newline_of, span_faithful,
};
use crate::engine::pipeline::{CleanReport, all_findings, clean_post, resolved_edits};
use crate::engine::splice::{byte_render_result, lemma_faithful_resolvable, lemma_render_no_edits, render_byte_spliced, rendered_bytes};
use crate::engine::traits::{Ctx, EditSet, EditView, Format, Rule, edits_in_bounds, edits_view};
use crate::formats::md_events::{
    MdItem, MdItemView, MdKind, MdTag, md_event_tags, md_events, md_items_view, md_offset_events, md_tags, tag_at,
};
use crate::text::{
    decode_utf8_bytes, prefixed, string_push, string_push_str, string_to_chars, utf8_error_text,
};

verus! {

/// The Markdown adapter.
pub struct Markdown;

/// Text inside these contexts is not editable prose: code stays code, and image alt text is
/// structural metadata. (Inline code and HTML are separate events, never text events.)
pub open spec fn md_protected(t: MdTag) -> bool {
    t == MdTag::CodeBlock || t == MdTag::Image
}

/// The nesting depth of protected contexts before event `n`. A stray end never goes below 0.
pub open spec fn md_depth(items: Seq<MdItemView>, tags: Seq<MdTag>, n: nat) -> nat
    decreases n,
{
    if n == 0 {
        0
    } else {
        let d = md_depth(items, tags, (n - 1) as nat);
        let k = items[n - 1].kind;
        if k == MdKind::Start && md_protected(tag_at(tags, n - 1)) {
            d + 1
        } else if k == MdKind::End && md_protected(tag_at(tags, n - 1)) {
            if d == 0 {
                0
            } else {
                (d - 1) as nat
            }
        } else {
            d
        }
    }
}

/// The span a text event's range gives: its source bytes, decoded. `None` when the range
/// leaves the source or does not cut it at character boundaries.
pub open spec fn md_text_span(bytes: Seq<u8>, r: Range<usize>) -> Option<ProseSpanView> {
    if r.start <= r.end <= bytes.len() && valid_utf8(bytes.subrange(r.start as int, r.end as int)) {
        Some(
            ProseSpanView {
                anchor: SpanAnchorView::Bytes(r),
                text: decode_utf8(bytes.subrange(r.start as int, r.end as int)),
            },
        )
    } else {
        None
    }
}

/// The prose spans of the first `n` events: every text event outside protected contexts.
pub open spec fn md_spans(bytes: Seq<u8>, items: Seq<MdItemView>, tags: Seq<MdTag>, n: nat) -> Seq<ProseSpanView>
    decreases n,
{
    if n == 0 {
        Seq::empty()
    } else {
        let prev = md_spans(bytes, items, tags, (n - 1) as nat);
        let it = items[n - 1];
        if it.kind == MdKind::Text && md_depth(items, tags, (n - 1) as nat) == 0 && md_text_span(
            bytes,
            it.range,
        ) is Some {
            prev.push(md_text_span(bytes, it.range).unwrap())
        } else {
            prev
        }
    }
}

/// Whether a text starts with a byte-order mark.
pub open spec fn starts_with_bom(s: Seq<char>) -> bool {
    s.len() > 0 && s[0] == '\u{FEFF}'
}

/// The document `parse` builds from valid UTF-8 Markdown.
pub open spec fn md_document(bytes: Seq<u8>) -> DocumentView {
    let src = decode_utf8(bytes);
    let items = md_offset_events(src);
    DocumentView {
        source: bytes,
        spans: md_spans(bytes, items, md_event_tags(src), items.len()),
        meta: DocMeta { format: FormatId::Markdown, newline: newline_of(src), had_bom: starts_with_bom(src) },
        aux: Seq::empty(),
    }
}

/// The structural fingerprint of an event list: every non-text event's `Debug` rendering,
/// with each text event collapsed to `·`.
pub open spec fn md_skeleton_of(items: Seq<MdItemView>) -> Seq<char>
    decreases items.len(),
{
    if items.len() == 0 {
        Seq::empty()
    } else {
        md_skeleton_of(items.drop_last()) + if items.last().kind == MdKind::Text {
            seq!['\u{00B7}']
        } else {
            items.last().debug
        }
    }
}

/// The message of a Markdown encoding error.
pub open spec fn md_encoding_message(bytes: Seq<u8>) -> Seq<char> {
    "markdown is not valid UTF-8: "@ + utf8_error_text(bytes)
}

proof fn lemma_md_spans_faithful(bytes: Seq<u8>, items: Seq<MdItemView>, tags: Seq<MdTag>, n: nat)
    requires
        n <= items.len(),
    ensures
        forall|i: int| 0 <= i < md_spans(bytes, items, tags, n).len() ==> span_faithful(bytes, #[trigger] md_spans(bytes, items, tags, n)[i]),
    decreases n,
{
    if n > 0 {
        lemma_md_spans_faithful(bytes, items, tags, (n - 1) as nat);
        let prev = md_spans(bytes, items, tags, (n - 1) as nat);
        let cur = md_spans(bytes, items, tags, n);
        let r = items[n - 1].range;
        if md_text_span(bytes, r) is Some && cur != prev {
            let sub = bytes.subrange(r.start as int, r.end as int);
            decode_utf8_encode_utf8(sub);
            assert(span_faithful(bytes, md_text_span(bytes, r).unwrap()));
            assert forall|i: int| 0 <= i < cur.len() implies span_faithful(bytes, #[trigger] cur[i]) by {
                if i < prev.len() {
                    assert(cur[i] == prev[i]);
                }
            }
        }
    }
}

fn decode_markdown(bytes: &[u8]) -> (r: Result<String, CoreError>)
    ensures
        r is Ok <==> valid_utf8(bytes@),
        r matches Ok(s) ==> s@ == decode_utf8(bytes@),
        r matches Err(e) ==> e matches CoreError::Encoding(m) && m@ == md_encoding_message(bytes@),
{
    match decode_utf8_bytes(bytes) {
        Ok(s) => Ok(s),
        Err(m) => Err(CoreError::Encoding(prefixed("markdown is not valid UTF-8: ", m.as_str()))),
    }
}

impl Format for Markdown {
    open spec fn spec_id(&self) -> FormatId {
        FormatId::Markdown
    }

    fn id(&self) -> (r: FormatId) {
        FormatId::Markdown
    }

    open spec fn doc_ok(&self, doc: Document) -> bool {
        doc@.faithful()
    }

    open spec fn parse_post(&self, bytes: Seq<u8>, r: Result<Document, CoreError>) -> bool {
        match r {
            Ok(d) => valid_utf8(bytes) && d@ == md_document(bytes),
            Err(e) => !valid_utf8(bytes) && (e matches CoreError::Encoding(m) && m@ == md_encoding_message(bytes)),
        }
    }

    fn parse(&self, bytes: &[u8]) -> (r: Result<Document, CoreError>) {
        let src = match decode_markdown(bytes) {
            Ok(s) => s,
            Err(e) => {
                return Err(e);
            },
        };
        let ghost text = src@;
        let newline = detect_newline(src.as_str());
        let cs = string_to_chars(src.as_str());
        let had_bom = cs.len() > 0 && cs[0] == '\u{FEFF}';
        let items = md_events(src.as_str());
        let tags = md_tags(src.as_str());
        let ghost iv = md_items_view(items@);
        let mut spans: Vec<ProseSpan> = Vec::new();
        let mut depth: usize = 0;
        let mut i: usize = 0;
        while i < items.len()
            invariant
                i <= items@.len(),
                iv == md_items_view(items@),
                iv == md_offset_events(text),
                tags@ == md_event_tags(text),
                text == decode_utf8(bytes@),
                depth == md_depth(iv, tags@, i as nat),
                depth <= i,
                crate::engine::ir::spans_view(spans@) == md_spans(bytes@, iv, tags@, i as nat),
            decreases items@.len() - i,
        {
            let it = &items[i];
            let ghost before = crate::engine::ir::spans_view(spans@);
            assert(iv[i as int] == items@[i as int]@);
            let t = if i < tags.len() { tags[i] } else { MdTag::NoTag };
            let protected = t == MdTag::CodeBlock || t == MdTag::Image;
            match it.kind {
                MdKind::Start => {
                    if protected {
                        depth = depth + 1;
                    }
                },
                MdKind::End => {
                    if protected && depth > 0 {
                        depth = depth - 1;
                    }
                },
                MdKind::Text => {
                    if depth == 0 && it.range.start <= it.range.end && it.range.end <= bytes.len() {
                        let sub = vstd::slice::slice_subrange(bytes, it.range.start, it.range.end);
                        match decode_utf8_bytes(sub) {
                            Ok(t) => {
                                let r = Range { start: it.range.start, end: it.range.end };
                                spans.push(ProseSpan::new(SpanAnchor::Bytes(r), t));
                                assert(crate::engine::ir::spans_view(spans@) =~= before.push(
                                    md_text_span(bytes@, it.range).unwrap(),
                                ));
                            },
                            Err(_) => {},
                        }
                    }
                },
                _ => {},
            }
            i = i + 1;
        }
        let total = bytes.len();
        let meta = DocMeta { format: FormatId::Markdown, newline, had_bom };
        let doc = Document::new(vstd::slice::slice_to_vec(bytes), spans, meta);
        proof {
            lemma_md_spans_faithful(bytes@, iv, tags@, iv.len());
            assert(bytes@.len() == total);
            assert(doc@.spans == md_spans(bytes@, iv, tags@, iv.len()));
            assert(doc@ == md_document(bytes@));
        }
        Ok(doc)
    }

    open spec fn render_post(&self, doc: Document, edits: Seq<EditView>, r: Result<Vec<u8>, CoreError>) -> bool {
        byte_render_result(doc@, edits, r)
    }

    fn render(&self, doc: &Document, edits: &EditSet) -> (r: Result<Vec<u8>, CoreError>) {
        render_byte_spliced(doc, edits)
    }

    open spec fn skeleton_post(&self, bytes: Seq<u8>, r: Result<String, CoreError>) -> bool {
        if valid_utf8(bytes) {
            r matches Ok(s) && s@ == md_skeleton_of(md_offset_events(decode_utf8(bytes)))
        } else {
            r matches Err(CoreError::Encoding(m)) && m@ == md_encoding_message(bytes)
        }
    }

    fn skeleton(&self, bytes: &[u8]) -> (r: Result<String, CoreError>) {
        let src = match decode_markdown(bytes) {
            Ok(s) => s,
            Err(e) => {
                return Err(e);
            },
        };
        let items = md_events(src.as_str());
        let ghost iv = md_items_view(items@);
        let mut out = String::new();
        let mut i: usize = 0;
        while i < items.len()
            invariant
                i <= items@.len(),
                iv == md_items_view(items@),
                out@ == md_skeleton_of(iv.take(i as int)),
            decreases items@.len() - i,
        {
            proof {
                assert(iv.take(i + 1).drop_last() =~= iv.take(i as int));
                assert(iv.take(i + 1).last() == items@[i as int]@);
            }
            if items[i].kind == MdKind::Text {
                string_push(&mut out, '\u{00B7}');
                assert(out@ =~= md_skeleton_of(iv.take(i + 1)));
            } else {
                string_push_str(&mut out, items[i].debug.as_str());
            }
            i = i + 1;
        }
        assert(iv.take(iv.len() as int) =~= iv);
        Ok(out)
    }
}

/// An unedited Markdown document renders back to exactly the bytes it was parsed from.
pub proof fn lemma_markdown_roundtrip(bytes: Seq<u8>)
    requires
        valid_utf8(bytes),
    ensures
        rendered_bytes(md_document(bytes), Seq::<EditView>::empty()) == Ok::<Seq<u8>, Seq<char>>(bytes),
{
    lemma_render_no_edits(md_document(bytes));
}

/// When no edit survives resolution, cleaning a Markdown document gives back its source byte
/// for byte, and the report says nothing changed.
pub proof fn lemma_markdown_clean_no_edits(
    doc: Document,
    rules: Seq<Box<dyn Rule>>,
    cx: Ctx,
    out: Vec<u8>,
    rep: CleanReport,
)
    requires
        doc.meta.format == FormatId::Markdown,
        clean_post(&Markdown, doc, rules, cx, Ok((out, rep))),
        resolved_edits(all_findings(doc@.spans, rules, cx)).len() == 0,
    ensures
        out@ == doc.source@,
        !rep.changed,
{
    let res = resolved_edits(all_findings(doc@.spans, rules, cx));
    assert(res =~= Seq::<EditView>::empty());
    lemma_render_no_edits(doc@);
}

/// How many code blocks and images are open before event `n`: each start of one opens it,
/// each end closes one (never below zero).
pub open spec fn open_code_or_image(items: Seq<MdItemView>, tags: Seq<MdTag>, n: nat) -> nat
    decreases n,
{
    if n == 0 {
        0
    } else {
        let d = open_code_or_image(items, tags, (n - 1) as nat);
        let t = tag_at(tags, n - 1);
        let code_or_image = t == MdTag::CodeBlock || t == MdTag::Image;
        if code_or_image && items[n - 1].kind == MdKind::Start {
            d + 1
        } else if code_or_image && items[n - 1].kind == MdKind::End && d > 0 {
            (d - 1) as nat
        } else {
            d
        }
    }
}

proof fn lemma_depth_is_code_or_image(items: Seq<MdItemView>, tags: Seq<MdTag>, n: nat)
    ensures
        md_depth(items, tags, n) == open_code_or_image(items, tags, n),
    decreases n,
{
    if n > 0 {
        lemma_depth_is_code_or_image(items, tags, (n - 1) as nat);
    }
}

/// Spans already found stay as more events are read.
proof fn lemma_md_spans_grow(bytes: Seq<u8>, items: Seq<MdItemView>, tags: Seq<MdTag>, m: nat, n: nat)
    requires
        m <= n,
    ensures
        md_spans(bytes, items, tags, m).len() <= md_spans(bytes, items, tags, n).len(),
        forall|j: int| 0 <= j < md_spans(bytes, items, tags, m).len() ==> #[trigger] md_spans(bytes, items, tags, n)[j]
            == md_spans(bytes, items, tags, m)[j],
    decreases n - m,
{
    if m < n {
        lemma_md_spans_grow(bytes, items, tags, m, (n - 1) as nat);
    }
}

/// Every Markdown text event outside code blocks and images (the text of a paragraph, a list
/// item, a heading, an emphasis, a table cell, ...) is a prose span of the document: one
/// anchored at the event's source bytes, whose text is those bytes. Only code blocks and
/// images protect their text.
pub proof fn lemma_unprotected_text_is_prose(bytes: Seq<u8>, i: int)
    requires
        valid_utf8(bytes),
        0 <= i < md_offset_events(decode_utf8(bytes)).len(),
        ({
            let items = md_offset_events(decode_utf8(bytes));
            let r = items[i].range;
            &&& items[i].kind == MdKind::Text
            &&& open_code_or_image(items, md_event_tags(decode_utf8(bytes)), i as nat) == 0
            &&& r.start <= r.end <= bytes.len()
            &&& valid_utf8(bytes.subrange(r.start as int, r.end as int))
        }),
    ensures
        exists|j: int|
            0 <= j < md_document(bytes).spans.len() && #[trigger] md_document(bytes).spans[j].anchor
                == SpanAnchorView::Bytes(md_offset_events(decode_utf8(bytes))[i].range) && crate::text::utf8(
                md_document(bytes).spans[j].text,
            ) == bytes.subrange(
                md_offset_events(decode_utf8(bytes))[i].range.start as int,
                md_offset_events(decode_utf8(bytes))[i].range.end as int,
            ),
{
    let src = decode_utf8(bytes);
    let items = md_offset_events(src);
    let tags = md_event_tags(src);
    let r = items[i].range;
    let sub = bytes.subrange(r.start as int, r.end as int);
    lemma_depth_is_code_or_image(items, tags, i as nat);
    let before = md_spans(bytes, items, tags, i as nat);
    let after = md_spans(bytes, items, tags, (i + 1) as nat);
    assert(after == before.push(md_text_span(bytes, r).unwrap()));
    lemma_md_spans_grow(bytes, items, tags, (i + 1) as nat, items.len());
    let j = before.len() as int;
    let spans = md_document(bytes).spans;
    assert(spans == md_spans(bytes, items, tags, items.len()));
    assert(spans[j] == after[j]);
    assert(after[j] == md_text_span(bytes, r).unwrap());
    decode_utf8_encode_utf8(sub);
    assert(spans[j].anchor == SpanAnchorView::Bytes(r));
    assert(crate::text::utf8(spans[j].text) == sub);
}

}
