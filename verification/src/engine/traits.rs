use vstd::prelude::*;
use std::ops::Range;
use crate::engine::error::CoreError;
use crate::engine::ir::{Document, FormatId, ProseSpan, ProseSpanView};
use crate::engine::level::CleanupLevel;
use crate::text::utf8_len;

verus! {

/// Immutable, side-effect-free context handed to every rule. No I/O, no clock, no
/// unseeded randomness — this is what keeps the pipeline reproducible and snapshot-testable.
#[derive(Debug, Clone, Copy, PartialEq, Eq, Structural)]
pub struct Ctx {
    pub level: CleanupLevel,
    /// Hint that this is a preview run. Rules should behave identically; the *caller*
    /// decides whether to write.
    pub dry_run: bool,
}

impl Ctx {
    pub fn new(level: CleanupLevel) -> (c: Ctx)
        ensures
            c.level == level,
            !c.dry_run,
    {
        Ctx { level, dry_run: false }
    }
}

/// A single detection result over one prose span.
///
/// `replacement: Some(_)` produces an edit; `None` is flag-only (reported, never changed).
#[derive(Debug)]
pub struct Finding {
    pub rule_id: String,
    pub span_index: usize,
    /// Byte range *within `span.text`* (falls on char boundaries).
    pub range: Range<usize>,
    pub message: String,
    pub replacement: Option<String>,
}

/// The mathematical content of a finding.
pub struct FindingView {
    pub rule_id: Seq<char>,
    pub span_index: usize,
    pub range: Range<usize>,
    pub message: Seq<char>,
    pub replacement: Option<Seq<char>>,
}

/// View of an optional string.
pub open spec fn opt_str_view(o: Option<String>) -> Option<Seq<char>> {
    match o {
        Some(s) => Some(s@),
        None => None,
    }
}

impl View for Finding {
    type V = FindingView;

    open spec fn view(&self) -> FindingView {
        FindingView {
            rule_id: self.rule_id@,
            span_index: self.span_index,
            range: self.range,
            message: self.message@,
            replacement: opt_str_view(self.replacement),
        }
    }
}

/// Views of a sequence of findings.
pub open spec fn findings_view(s: Seq<Finding>) -> Seq<FindingView> {
    s.map_values(|f: Finding| f@)
}

/// A resolved edit, expressed against a span's local text range.
#[derive(Debug)]
pub struct Edit {
    pub span_index: usize,
    pub range: Range<usize>,
    pub replacement: String,
    /// The rule that produced this edit (for the per-rule change summary).
    pub rule_id: String,
}

/// The mathematical content of an edit.
pub struct EditView {
    pub span_index: usize,
    pub range: Range<usize>,
    pub replacement: Seq<char>,
    pub rule_id: Seq<char>,
}

impl View for Edit {
    type V = EditView;

    open spec fn view(&self) -> EditView {
        EditView {
            span_index: self.span_index,
            range: self.range,
            replacement: self.replacement@,
            rule_id: self.rule_id@,
        }
    }
}

/// Views of a sequence of edits.
pub open spec fn edits_view(s: Seq<Edit>) -> Seq<EditView> {
    s.map_values(|e: Edit| e@)
}

/// Span-relative edits that stay inside their span's text.
pub open spec fn edits_in_bounds(doc: crate::engine::ir::DocumentView, edits: Seq<EditView>) -> bool {
    forall|i: int|
        0 <= i < edits.len() && #[trigger] edits[i].span_index < doc.spans.len() ==> edits[i].range.start
            <= edits[i].range.end <= utf8_len(doc.spans[edits[i].span_index as int].text)
}

/// Findings of one span that name that span and lie inside its text.
pub open spec fn findings_in_bounds(fs: Seq<FindingView>, span_index: usize, text: Seq<char>) -> bool {
    forall|k: int|
        0 <= k < fs.len() ==> (#[trigger] fs[k]).span_index == span_index && fs[k].range.start
            <= fs[k].range.end <= utf8_len(text)
}

/// Findings that name an existing span of `doc` and lie inside its text.
pub open spec fn findings_in_doc(doc: crate::engine::ir::DocumentView, fs: Seq<FindingView>) -> bool {
    forall|k: int|
        0 <= k < fs.len() ==> (#[trigger] fs[k]).span_index < doc.spans.len() && fs[k].range.start
            <= fs[k].range.end <= utf8_len(doc.spans[fs[k].span_index as int].text)
}

/// A set of resolved edits, in application order.
#[derive(Debug)]
pub struct EditSet {
    pub edits: Vec<Edit>,
}

impl Default for EditSet {
    /// The empty edit set.
    fn default() -> (e: EditSet)
        ensures
            e.edits@.len() == 0,
    {
        EditSet { edits: Vec::new() }
    }
}

impl EditSet {
    /// The empty edit set.
    pub fn empty() -> (e: EditSet)
        ensures
            e.edits@.len() == 0,
    {
        EditSet { edits: Vec::new() }
    }
}

/// A format adapter. Parses bytes into prose spans and renders edits back by **splicing
/// into the original bytes** — never by reserializing a parsed tree.
pub trait Format {
    /// The format this adapter handles.
    spec fn spec_id(&self) -> FormatId;

    fn id(&self) -> (r: FormatId)
        ensures
            r == self.spec_id(),
    ;

    /// The documents this adapter produces and can render.
    spec fn doc_ok(&self, doc: Document) -> bool;

    /// What `parse` guarantees of its result.
    spec fn parse_post(&self, bytes: Seq<u8>, r: Result<Document, CoreError>) -> bool;

    /// Parse bytes into prose spans. Classifies every byte as either prose (→ a span)
    /// or structure (→ excluded, hence frozen).
    fn parse(&self, bytes: &[u8]) -> (r: Result<Document, CoreError>)
        ensures
            self.parse_post(bytes@, r),
            r matches Ok(d) ==> self.doc_ok(d) && d@.faithful(),
    ;

    /// What `render` guarantees of its result.
    spec fn render_post(&self, doc: Document, edits: Seq<EditView>, r: Result<Vec<u8>, CoreError>) -> bool;

    /// Apply edits (each meant to lie inside its span's text) and produce final bytes. An edit
    /// that does not land inside the source is reported as a self-check error. An empty edit
    /// set renders the input unchanged: `doc.source` for the byte-spliced formats, and for a
    /// container format (DOCX) the container it was parsed from, `doc.aux`.
    fn render(&self, doc: &Document, edits: &EditSet) -> (r: Result<Vec<u8>, CoreError>)
        requires
            self.doc_ok(*doc),
            crate::engine::splice::resolvable(doc@, edits_view(edits.edits@)),
        ensures
            self.render_post(*doc, edits_view(edits.edits@), r),
    ;

    /// What `skeleton` guarantees of its result.
    spec fn skeleton_post(&self, bytes: Seq<u8>, r: Result<String, CoreError>) -> bool;

    /// A canonical fingerprint of *structure only* (prose text excluded), used by the
    /// pipeline's post-edit self-check to prove no formatting changed.
    fn skeleton(&self, bytes: &[u8]) -> (r: Result<String, CoreError>)
        ensures
            self.skeleton_post(bytes@, r),
    ;
}

/// A detection rule. Format-agnostic: it only ever sees prose text.
pub trait Rule {
    spec fn spec_id(&self) -> Seq<char>;

    fn id(&self) -> (r: &str)
        ensures
            r@ == self.spec_id(),
    ;

    spec fn spec_min_level(&self) -> CleanupLevel;

    fn min_level(&self) -> (r: CleanupLevel)
        ensures
            r == self.spec_min_level(),
    ;

    /// The findings this rule reports on one span.
    spec fn spec_detect(&self, span_index: usize, span: ProseSpanView, cx: Ctx) -> Seq<FindingView>;

    fn detect(&self, span_index: usize, span: &ProseSpan, cx: &Ctx) -> (r: Vec<Finding>)
        ensures
            findings_view(r@) == self.spec_detect(span_index, span@, *cx),
            // Every finding names the span it was found in and lies inside its text.
            findings_in_bounds(self.spec_detect(span_index, span@, *cx), span_index, span.text@),
    ;
}

}
