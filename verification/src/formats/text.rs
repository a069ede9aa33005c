//! Plain-text adapter. The whole body, minus a leading byte-order mark, is one prose span.
//! The work here is preserving encoding and line endings, and never introducing newlines.

use vstd::prelude::*;
use vstd::utf8::*;
use std::ops::Range;
use crate::engine::error::CoreError;
use crate::engine::ir::{
    DocMeta, Document, DocumentView, FormatId, ProseSpan, ProseSpanView, SpanAnchor, SpanAnchorView, count_char,
    detect_newline, newline_of, span_faithful,
};
use crate::engine::pipeline::{CleanReport, all_findings, clean_post, resolved_edits};
use crate::engine::splice::{byte_render_result, lemma_faithful_resolvable, lemma_render_no_edits, render_byte_spliced, rendered_bytes};
use crate::engine::traits::{Ctx, EditSet, EditView, Format, Rule, edits_view};
use crate::formats::markdown::starts_with_bom;
use crate::text::{decimal, decode_utf8_bytes, prefixed, push_decimal, str_to_string, string_push, string_to_chars, utf8_error_text};

verus! {

/// The plain-text adapter.
pub struct PlainText;

/// The byte length of a leading byte-order mark, when there is one.
pub open spec fn bom_len(src: Seq<char>) -> nat {
    if starts_with_bom(src) {
        3
    } else {
        0
    }
}

/// The document `parse` builds from valid UTF-8 text: one span over everything after the
/// byte-order mark.
pub open spec fn text_document(bytes: Seq<u8>) -> DocumentView {
    let src = decode_utf8(bytes);
    let start = bom_len(src);
    DocumentView {
        source: bytes,
        spans: seq![
            ProseSpanView {
                anchor: SpanAnchorView::Bytes(Range { start: start as usize, end: bytes.len() as usize }),
                text: if starts_with_bom(src) { src.drop_first() } else { src },
            },
        ],
        meta: DocMeta { format: FormatId::PlainText, newline: newline_of(src), had_bom: starts_with_bom(src) },
        aux: Seq::empty(),
    }
}

/// The message of a plain-text encoding error.
pub open spec fn text_encoding_message(bytes: Seq<u8>) -> Seq<char> {
    "text is not valid UTF-8: "@ + utf8_error_text(bytes)
}

/// The structural fingerprint of a text: its line count, as `lines=N`. (A replacement may
/// never add or remove lines.)
pub open spec fn text_skeleton_of(src: Seq<char>) -> Seq<char> {
    "lines="@ + decimal(count_char(src, '\n') + 1)
}

fn decode_text(bytes: &[u8]) -> (r: Result<String, CoreError>)
    ensures
        r is Ok <==> valid_utf8(bytes@),
        r matches Ok(s) ==> s@ == decode_utf8(bytes@),
        r matches Err(e) ==> e matches CoreError::Encoding(m) && m@ == text_encoding_message(bytes@),
{
    match decode_utf8_bytes(bytes) {
        Ok(s) => Ok(s),
        Err(m) => Err(CoreError::Encoding(prefixed("text is not valid UTF-8: ", m.as_str()))),
    }
}

impl Format for PlainText {
    open spec fn spec_id(&self) -> FormatId {
        FormatId::PlainText
    }

    fn id(&self) -> (r: FormatId) {
        FormatId::PlainText
    }

    open spec fn doc_ok(&self, doc: Document) -> bool {
        doc@.faithful()
    }

    open spec fn parse_post(&self, bytes: Seq<u8>, r: Result<Document, CoreError>) -> bool {
        match r {
            Ok(d) => valid_utf8(bytes) && d@ == text_document(bytes),
            Err(e) => !valid_utf8(bytes) && (e matches CoreError::Encoding(m) && m@ == text_encoding_message(bytes)),
        }
    }

    fn parse(&self, bytes: &[u8]) -> (r: Result<Document, CoreError>) {
        let src = match decode_text(bytes) {
            Ok(s) => s,
            Err(e) => {
                return Err(e);
            },
        };
        let total = bytes.len();
        let newline = detect_newline(src.as_str());
        let cs = string_to_chars(src.as_str());
        let had_bom = cs.len() > 0 && cs[0] == '\u{FEFF}';
        let (start, text) = if had_bom {
            let mut t = String::new();
            let mut k: usize = 1;
            while k < cs.len()
                invariant
                    1 <= k <= cs@.len(),
                    t@ == cs@.subrange(1, k as int),
                decreases cs@.len() - k,
            {
                string_push(&mut t, cs[k]);
                assert(cs@.subrange(1, k + 1) =~= cs@.subrange(1, k as int).push(cs@[k as int]));
                k = k + 1;
            }
            proof {
                assert(cs@.subrange(1, cs@.len() as int) =~= cs@.drop_first());
                let s = cs@;
                decode_utf8_encode_utf8(bytes@);
                assert(encode_utf8(s) =~= encode_scalar(s[0] as u32) + encode_utf8(s.drop_first()));
                assert(encode_scalar(s[0] as u32).len() == 3);
                assert(encode_utf8(s) == bytes@);
                assert(bytes@.subrange(3, bytes@.len() as int) =~= encode_utf8(s.drop_first()));
            }
            (3usize, t)
        } else {
            proof {
                decode_utf8_encode_utf8(bytes@);
                assert(bytes@.subrange(0, bytes@.len() as int) =~= bytes@);
            }
            (0usize, src)
        };
        let span = ProseSpan::new(SpanAnchor::Bytes(Range { start, end: total }), text);
        let meta = DocMeta { format: FormatId::PlainText, newline, had_bom };
        let mut spans: Vec<ProseSpan> = Vec::new();
        spans.push(span);
        let doc = Document::new(vstd::slice::slice_to_vec(bytes), spans, meta);
        proof {
            assert(crate::engine::ir::spans_view(doc.spans@) =~= text_document(bytes@).spans);
            assert(doc@ == text_document(bytes@));
            assert(span_faithful(doc@.source, doc@.spans[0]));
        }
        Ok(doc)
    }

    open spec fn render_post(&self, doc: Document, edits: Seq<EditView>, r: Result<Vec<u8>, CoreError>) -> bool {
        byte_render_result(doc@, edits, r)
    }

    fn render(&self, doc: &Document, edits: &EditSet) -> (r: Result<Vec<u8>, CoreError>) {
        render_byte_spliced(doc, edits)
    }

    open spec fn skeleton_post(&self, bytes: Seq<u8>, r: Result<String, CoreError>) -> bool {
        if valid_utf8(bytes) {
            r matches Ok(s) && s@ == text_skeleton_of(decode_utf8(bytes))
        } else {
            r matches Err(CoreError::Encoding(m)) && m@ == text_encoding_message(bytes)
        }
    }

    fn skeleton(&self, bytes: &[u8]) -> (r: Result<String, CoreError>) {
        let src = match decode_text(bytes) {
            Ok(s) => s,
            Err(e) => {
                return Err(e);
            },
        };
        let cs = string_to_chars(src.as_str());
        let mut n: usize = 0;
        let mut i: usize = 0;
        while i < cs.len()
            invariant
                i <= cs@.len(),
                n == count_char(cs@.take(i as int), '\n'),
                n <= i,
            decreases cs@.len() - i,
        {
            assert(cs@.take(i + 1).drop_last() =~= cs@.take(i as int));
            if cs[i] == '\n' {
                n = n + 1;
            }
            i = i + 1;
        }
        assert(cs@.take(cs@.len() as int) =~= cs@);
        let mut out = str_to_string("lines=");
        push_decimal(&mut out, n as u128 + 1);
        Ok(out)
    }
}

/// An unedited text document renders back to exactly the bytes it was parsed from.
pub proof fn lemma_text_roundtrip(bytes: Seq<u8>)
    requires
        valid_utf8(bytes),
    ensures
        rendered_bytes(text_document(bytes), Seq::<EditView>::empty()) == Ok::<Seq<u8>, Seq<char>>(bytes),
{
    lemma_render_no_edits(text_document(bytes));
}

/// When no edit survives resolution, cleaning a text document gives back its source byte for
/// byte, and the report says nothing changed.
pub proof fn lemma_text_clean_no_edits(doc: Document, rules: Seq<Box<dyn Rule>>, cx: Ctx, out: Vec<u8>, rep: CleanReport)
    requires
        doc.meta.format == FormatId::PlainText,
        clean_post(&PlainText, doc, rules, cx, Ok((out, rep))),
        resolved_edits(all_findings(doc@.spans, rules, cx)).len() == 0,
    ensures
        out@ == doc.source@,
        !rep.changed,
{
    let res = resolved_edits(all_findings(doc@.spans, rules, cx));
    assert(res =~= Seq::<EditView>::empty());
    lemma_render_no_edits(doc@);
}

}
